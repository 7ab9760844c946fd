//! What a client is told of operations, fields and objects.

use vstd::prelude::*;

use crate::actor_states::StatesView;
use crate::concurrent_operations::all_assign;
use crate::diff::{ActionView, ConflictView, DiffView, MapType, SequenceType, ValueView};
use crate::ids::{element_named, ElementIDView, ObjectIDView};
use crate::list_laws::{grown_list_has_order, lemma_order_known};
use crate::list_order::list_order;
use crate::objects::{
    applied_op, lemma_applied_op_wf, list_assign, map_assign, store_wf, ListStateView, StoreView,
};
use crate::protocol::{DataType, OpView, OperationView};
use crate::seqs::{
    lemma_filter_all, lemma_filter_distinct, lemma_filter_holds, lemma_filter_map,
    lemma_filters_alike,
};
use crate::store_laws::{
    gives_element, gives_value, in_place, operation_leaves_the_store_sound, sound_store,
};

verus! {

/// Whether an operation sets, links, deletes or increments the field `key` of the
/// object `id`.
pub open spec fn works_on(op: OperationView, id: ObjectIDView, key: Seq<char>) -> bool {
    match op {
        OperationView::SetValue { object_id, key: k, .. } => object_id == id && k == key,
        OperationView::Link { object_id, key: k, .. } => object_id == id && k == key,
        OperationView::Delete { object_id, key: k } => object_id == id && k == key,
        OperationView::Increment { object_id, key: k, .. } => object_id == id && k == key,
        _ => false,
    }
}

/// Whether a value and the way to read it are those that an operation gives.
pub open spec fn given_by(
    op: OperationView,
    value: ValueView,
    datatype: Option<DataType>,
) -> bool {
    match op {
        OperationView::SetValue { value: v, datatype: d, .. } => value == ValueView::Primitive(v)
            && datatype == d,
        OperationView::Link { value: target, .. } => value == ValueView::Link(target)
            && datatype == None::<DataType>,
        _ => false,
    }
}

/// Whether conflicts tell of all operations of a field but the first, in their
/// order: who made each, and what it gives.
pub open spec fn tell_the_rest(conflicts: Seq<ConflictView>, field: Seq<OpView>) -> bool {
    &&& field.len() == 0 ==> conflicts.len() == 0
    &&& field.len() > 0 ==> conflicts.len() + 1 == field.len()
    &&& forall|i: int|
        0 <= i < conflicts.len() ==> {
            &&& (#[trigger] conflicts[i]).actor == field[i + 1].actor
            &&& given_by(field[i + 1].op, conflicts[i].value, conflicts[i].datatype)
        }
}

/// An operation that sets a field or makes it refer to an object is shown with
/// exactly what is written in it: its object, its field, its value and the datatype;
/// in a list, with the element that its key names. No other operation is shown.
pub proof fn assignments_are_shown_as_written(
    op: OperationView,
    map_type: MapType,
    sequence_type: SequenceType,
    index: u32,
)
    ensures
        op is SetValue || op is Link ==> {
            &&& given_by(op, op.value_given(), op.datatype_given())
            &&& map_assign(op, map_type) matches Some(
                ActionView::SetMapKey(id, t, key, value, datatype),
            ) && works_on(op, id, key) && t == map_type && given_by(op, value, datatype)
            &&& match list_assign(op, sequence_type, index) {
                Some(ActionView::InsertSequenceElement(id, t, i, value, datatype, e)) => {
                    &&& exists|key: Seq<char>|
                        #[trigger] works_on(op, id, key) && element_named(key) == Some(e)
                    &&& t == sequence_type
                    &&& i == index
                    &&& given_by(op, value, datatype)
                },
                Some(_) => false,
                None => forall|id: ObjectIDView, key: Seq<char>| #[trigger]
                    works_on(op, id, key) ==> element_named(key) is None,
            }
        },
        !(op is SetValue || op is Link) ==> {
            &&& map_assign(op, map_type) is None
            &&& list_assign(op, sequence_type, index) is None
            &&& op.datatype_given() is None
        },
{
    match op {
        OperationView::SetValue { object_id, key, .. } => {
            assert(works_on(op, object_id, key));
        },
        OperationView::Link { object_id, key, .. } => {
            assert(works_on(op, object_id, key));
        },
        _ => {},
    }
}

/// The report of an operation on a field of a map shows what the field holds after
/// it: the first operation, with exactly the value and the datatype that are
/// written in it, and all others as conflicts; or that the field is gone, if it
/// holds nothing.
pub proof fn map_report_shows_what_the_field_holds(
    store: StoreView,
    s: StatesView,
    op: OpView,
    id: ObjectIDView,
    key: Seq<char>,
)
    requires
        store_wf(store),
        sound_store(store),
        store.contains_key(id),
        store[id] is MapObject,
        works_on(op.op, id, key),
    ensures
        match applied_op(store, s, op) {
            Ok((after, Some(d), _)) => {
                let m = after[id]->MapObject_0;
                let field = m.ops[key];
                &&& after.contains_key(id) && after[id] is MapObject
                &&& m.map_type == store[id]->MapObject_0.map_type
                &&& m.ops.contains_key(key)
                &&& tell_the_rest(d.conflicts, field)
                &&& field.len() == 0 ==> d.action == ActionView::RemoveMapKey(
                    id,
                    m.map_type,
                    key,
                )
                &&& field.len() > 0 ==> (d.action matches ActionView::SetMapKey(
                    object,
                    map_type,
                    k,
                    value,
                    datatype,
                ) && object == id && map_type == m.map_type && k == key && given_by(
                    field[0].op,
                    value,
                    datatype,
                ))
            },
            _ => false,
        },
{
    lemma_applied_op_wf(store, s, op);
    operation_leaves_the_store_sound(store, s, op);
    let (after, d, _) = applied_op(store, s, op)->Ok_0;
    let m = after[id]->MapObject_0;
    let field = m.ops[key];
    assert(after[id].wf());
    assert(all_assign(m.ops[key]));
    assert forall|i: int| 0 <= i < field.len() implies (#[trigger] field[i]).op.assigns() && works_on(
        field[i].op,
        id,
        key,
    ) by {
        assert(in_place(after[id]));
        assert(gives_value(m.ops[key][i].op, m.object_id, key));
    }
    if field.len() > 0 {
        assert(field[0].op.assigns());
    }
    assert forall|i: int| 0 <= i < d->Some_0.conflicts.len() implies {
        &&& (#[trigger] d->Some_0.conflicts[i]).actor == field[i + 1].actor
        &&& given_by(
            field[i + 1].op,
            d->Some_0.conflicts[i].value,
            d->Some_0.conflicts[i].datatype,
        )
    } by {
        assert(field[i + 1].op.assigns());
    }
}

/// The elements of a list, in its order.
pub open spec fn elements(l: ListStateView) -> Seq<ElementIDView> {
    list_order(l.ops.dom(), l.following)->Done_0
}

/// Whether the element at `i` is the first of a list that holds a value.
pub open spec fn first_with_a_value(l: ListStateView, i: int) -> bool {
    &&& 0 <= i < elements(l).len()
    &&& l.ops[elements(l)[i]].len() > 0
    &&& forall|j: int| 0 <= j < i ==> l.ops[#[trigger] elements(l)[j]].len() == 0
}

/// Whether no element of a list holds a value.
pub open spec fn without_values(l: ListStateView) -> bool {
    forall|i: int| 0 <= i < elements(l).len() ==> l.ops[#[trigger] elements(l)[i]].len() == 0
}

/// What is shown of a list is the first operation of its first element that holds
/// a value.
proof fn lemma_first_shown(l: ListStateView)
    requires
        l.wf(),
    ensures
        l.first_shown() is None <==> without_values(l),
        forall|i: int| #[trigger]
            first_with_a_value(l, i) ==> l.first_shown() == Some(l.ops[elements(l)[i]][0]),
        without_values(l) || exists|i: int| first_with_a_value(l, i),
{
    let order = elements(l);
    let p = |e: ElementIDView| l.field(e).len() > 0;
    grown_list_has_order(l.ops.dom(), l.following);
    lemma_order_known(l.ops.dom(), l.following);
    assert(l.order() == order);
    assert forall|i: int| 0 <= i < order.len() implies l.field(#[trigger] order[i]) == l.ops[order[i]] by {
        assert(l.ops.dom().contains(order[i]));
    }
    if without_values(l) {
        assert forall|i: int| 0 <= i < order.len() implies !p(#[trigger] order[i]) by {
            assert(l.ops[elements(l)[i]].len() == 0);
        }
        order.lemma_all_neg_filter_empty(p);
    } else {
        let i = choose|i: int| 0 <= i < order.len() && l.ops[#[trigger] order[i]].len() != 0;
        lemma_some_first(l, i);
    }
    assert forall|i: int| #[trigger] first_with_a_value(l, i) implies l.first_shown() == Some(
        l.ops[elements(l)[i]][0],
    ) by {
        let before = order.take(i);
        assert forall|j: int| 0 <= j < before.len() implies !p(#[trigger] before[j]) by {
            assert(l.ops[elements(l)[j]].len() == 0);
        }
        before.lemma_all_neg_filter_empty(p);
        let rest = order.skip(i);
        assert(order =~= before + rest);
        Seq::filter_distributes_over_add(before, rest, p);
        let later = rest.drop_first();
        assert(rest =~= seq![order[i]] + later);
        later.lemma_filter_prepend(order[i], p);
        assert(l.visible()[0] == order[i]);
    }
}

proof fn lemma_some_first(l: ListStateView, i: int)
    requires
        0 <= i < elements(l).len(),
        l.ops[elements(l)[i]].len() != 0,
    ensures
        exists|k: int| first_with_a_value(l, k),
    decreases i,
{
    if exists|j: int| 0 <= j < i && l.ops[#[trigger] elements(l)[j]].len() != 0 {
        let j = choose|j: int| 0 <= j < i && l.ops[#[trigger] elements(l)[j]].len() != 0;
        lemma_some_first(l, j);
    } else {
        assert(first_with_a_value(l, i));
    }
}

/// The report of an operation on an element of a list tells of all operations that
/// the element holds after it but the first as conflicts. It is on the first
/// element of the list that holds a value, and shows the first operation there,
/// with exactly the value and the datatype that are written in it.
pub proof fn list_report_shows_what_the_list_holds(
    store: StoreView,
    s: StatesView,
    op: OpView,
    id: ObjectIDView,
    key: Seq<char>,
    e: ElementIDView,
)
    requires
        store_wf(store),
        sound_store(store),
        store.contains_key(id),
        store[id] is List,
        works_on(op.op, id, key),
        element_named(key) == Some(e),
    ensures
        match applied_op(store, s, op) {
            Ok((after, report, _)) => {
                let b = store[id]->List_0;
                let l = after[id]->List_0;
                &&& after.contains_key(id) && after[id] is List
                &&& l.ops.contains_key(e)
                &&& l.sequence_type == b.sequence_type
                &&& report matches Some(d) ==> tell_the_rest(d.conflicts, l.ops[e])
                &&& without_values(b) && without_values(l) ==> report is None
                &&& !without_values(b) && without_values(l) ==> (report matches Some(d) && d.action
                    == ActionView::RemoveSequenceElement(id, l.sequence_type, 0))
                &&& forall|i: int| #[trigger]
                    first_with_a_value(l, i) && without_values(b) ==> (report matches Some(d)
                        && d.action matches ActionView::InsertSequenceElement(
                        object,
                        sequence_type,
                        index,
                        value,
                        datatype,
                        elem,
                    ) && object == id && sequence_type == l.sequence_type && index == 0
                        && elem == e && given_by(l.ops[elements(l)[i]][0].op, value, datatype))
                &&& forall|i: int| #[trigger]
                    first_with_a_value(l, i) && !without_values(b) ==> (report matches Some(d)
                        && d.action matches ActionView::SetSequenceElement(
                        object,
                        sequence_type,
                        index,
                        value,
                        datatype,
                    ) && object == id && sequence_type == l.sequence_type && index == 0
                        && given_by(l.ops[elements(l)[i]][0].op, value, datatype))
                &&& without_values(l) || exists|i: int| first_with_a_value(l, i)
            },
            Err(_) => false,
        },
{
    lemma_applied_op_wf(store, s, op);
    let (after, report, _) = applied_op(store, s, op)->Ok_0;
    let b = store[id]->List_0;
    let l = after[id]->List_0;
    assert(store.contains_key(id) && after.contains_key(id));
    assert(store[id].wf());
    assert(after[id].wf());
    lemma_first_shown(b);
    lemma_first_shown(l);
    assert(l.field(e) == l.ops[e]);
    assert(all_assign(l.ops[e]));
    if let Some(d) = report {
        let field = l.ops[e];
        assert forall|i: int| 0 <= i < d.conflicts.len() implies {
            &&& (#[trigger] d.conflicts[i]).actor == field[i + 1].actor
            &&& given_by(field[i + 1].op, d.conflicts[i].value, d.conflicts[i].datatype)
        } by {
            assert(field[i + 1].op.assigns());
        }
    }
    assert forall|i: int| #[trigger] first_with_a_value(l, i) implies l.ops[elements(
        l,
    )[i]][0].op.assigns() by {
        lemma_order_known(l.ops.dom(), l.following);
        assert(l.ops.dom().contains(elements(l)[i]));
        assert(l.ops.contains_key(elements(l)[i]));
        assert(all_assign(l.ops[elements(l)[i]]));
    }
}

/// The steps that make a map: its creation, with the ID and the type that it is
/// stored with, unless it is the root; and then one step for each field that holds
/// a value. That step shows the first operation of the field, with exactly the
/// value and the datatype that are written in it, and all others as conflicts.
/// Returns the fields in the order of their steps.
pub proof fn map_is_made_by_its_fields(store: StoreView, id: ObjectIDView) -> (keys: Seq<Seq<char>>)
    requires
        store_wf(store),
        sound_store(store),
        store.contains_key(id),
        store[id] is MapObject,
    ensures
        ({
            let m = store[id]->MapObject_0;
            let steps = store[id].diffs();
            let n: int = if id is Root {
                0
            } else {
                1
            };
            &&& keys.no_duplicates()
            &&& forall|k: Seq<char>|
                #[trigger] keys.contains(k) <==> m.ops.contains_key(k) && m.ops[k].len() > 0
            &&& steps.len() == n + keys.len()
            &&& !(id is Root) ==> steps[0].action == ActionView::CreateMap(id, m.map_type)
                && steps[0].conflicts.len() == 0
            &&& forall|i: int|
                0 <= i < keys.len() ==> {
                    let field = m.ops[#[trigger] keys[i]];
                    &&& steps[n + i].action matches ActionView::SetMapKey(
                        object,
                        map_type,
                        k,
                        value,
                        datatype,
                    ) && object == id && map_type == m.map_type && k == keys[i] && given_by(
                        field[0].op,
                        value,
                        datatype,
                    )
                    &&& tell_the_rest(steps[n + i].conflicts, field)
                }
        }),
{
    let m = store[id]->MapObject_0;
    let steps = store[id].diffs();
    let p = |k: Seq<char>| m.field(k).len() > 0;
    let f = |k: Seq<char>| m.field_diff(k);
    let keys = m.keys.filter(p);
    assert(store[id].wf());
    assert(in_place(store[id]));
    assert forall|k: Seq<char>, i: int|
        m.ops.contains_key(k) && 0 <= i < m.ops[k].len() implies gives_value(
        (#[trigger] m.ops[k][i]).op,
        id,
        k,
    ) by {}
    assert forall|i: int| 0 <= i < m.keys.len() implies (f(#[trigger] m.keys[i]) is Some <==> p(
        m.keys[i],
    )) by {
        let k = m.keys[i];
        assert(m.keys.contains(k));
        if p(k) {
            assert(gives_value(m.ops[k][0].op, id, k));
        }
    }
    lemma_filter_map(m.keys, f, p);
    lemma_filter_holds(m.keys, p);
    lemma_filter_distinct(m.keys, p);
    let sets = keys.map_values(|k: Seq<char>| f(k)->Some_0);
    assert forall|i: int| 0 <= i < keys.len() implies {
        let field = m.ops[#[trigger] keys[i]];
        &&& sets[i].action matches ActionView::SetMapKey(object, map_type, k, value, datatype)
            && object == id && map_type == m.map_type && k == keys[i] && given_by(
            field[0].op,
            value,
            datatype,
        )
        &&& tell_the_rest(sets[i].conflicts, field)
    } by {
        let k = keys[i];
        assert(keys.contains(k));
        let field = m.ops[k];
        assert(m.field(k) == field);
        assert(gives_value(m.ops[k][0].op, id, k));
        assert forall|j: int| 0 <= j < sets[i].conflicts.len() implies {
            &&& (#[trigger] sets[i].conflicts[j]).actor == field[j + 1].actor
            &&& given_by(field[j + 1].op, sets[i].conflicts[j].value, sets[i].conflicts[j].datatype)
        } by {
            assert(gives_value(m.ops[k][j + 1].op, id, k));
        }
    }
    let n: int = if id is Root {
        0
    } else {
        1
    };
    assert forall|i: int| 0 <= i < keys.len() implies steps[n + i] == sets[i] by {}
    keys
}

/// The steps that make a list: its creation, with the ID and the type that it is
/// stored with; one step for each element that holds a value, from the last to the
/// first of the list; and the largest counter. The step of an element shows its
/// first operation, with exactly the value and the datatype that are written in
/// it, and all others as conflicts.
pub proof fn list_is_made_by_its_elements(store: StoreView, id: ObjectIDView) -> (elems: Seq<
    ElementIDView,
>)
    requires
        store_wf(store),
        sound_store(store),
        store.contains_key(id),
        store[id] is List,
    ensures
        ({
            let l = store[id]->List_0;
            let steps = store[id].diffs();
            &&& elems == elements(l).reverse().filter(|e: ElementIDView| l.ops[e].len() > 0)
            &&& steps.len() == elems.len() + 2
            &&& steps[0].action == ActionView::CreateList(id, l.sequence_type)
            &&& steps[0].conflicts.len() == 0
            &&& steps.last().action == ActionView::MaxElem(id, l.max_elem, l.sequence_type)
            &&& steps.last().conflicts.len() == 0
            &&& forall|i: int|
                0 <= i < elems.len() ==> {
                    let field = l.ops[#[trigger] elems[i]];
                    &&& steps[i + 1].action matches ActionView::InsertSequenceElement(
                        object,
                        sequence_type,
                        index,
                        value,
                        datatype,
                        elem,
                    ) && object == id && sequence_type == l.sequence_type && index == i % 0x1_0000_0000
                        && elem == elems[i] && given_by(field[0].op, value, datatype)
                    &&& tell_the_rest(steps[i + 1].conflicts, field)
                }
        }),
{
    let l = store[id]->List_0;
    let steps = store[id].diffs();
    let order = elements(l);
    let back = order.reverse();
    let p = |e: ElementIDView| l.field(e).len() > 0;
    let q = |e: ElementIDView| l.ops[e].len() > 0;
    assert(store[id].wf());
    assert(in_place(store[id]));
    grown_list_has_order(l.ops.dom(), l.following);
    lemma_order_known(l.ops.dom(), l.following);
    assert forall|i: int| 0 <= i < back.len() implies p(#[trigger] back[i]) == q(back[i])
        && l.ops.contains_key(back[i]) by {
        assert(back[i] == order[order.len() - 1 - i]);
        assert(l.ops.dom().contains(order[order.len() - 1 - i]));
    }
    lemma_filters_alike(back, p, q);
    let elems = back.filter(p);
    lemma_filter_holds(back, p);
    let all = elems.map(|i: int, e: ElementIDView| l.element_diff(e, i));
    let f = |d: Option<DiffView>| d;
    let any = |d: Option<DiffView>| d is Some;
    assert forall|i: int| 0 <= i < elems.len() implies {
        let field = l.ops[#[trigger] elems[i]];
        &&& all[i] matches Some(d) && d.action matches ActionView::InsertSequenceElement(
            object,
            sequence_type,
            index,
            value,
            datatype,
            elem,
        ) && object == id && sequence_type == l.sequence_type && index == i % 0x1_0000_0000 && elem
            == elems[i] && given_by(field[0].op, value, datatype)
        &&& tell_the_rest(all[i]->Some_0.conflicts, field)
    } by {
        let e = elems[i];
        assert(elems.contains(e));
        let j = choose|j: int| 0 <= j < back.len() && back[j] == e;
        assert(l.ops.contains_key(back[j]));
        let field = l.ops[e];
        assert(l.field(e) == field);
        assert(gives_element(l.ops[e][0].op, l.object_id, e));
        let conflicts = all[i]->Some_0.conflicts;
        assert forall|k: int| 0 <= k < conflicts.len() implies {
            &&& (#[trigger] conflicts[k]).actor == field[k + 1].actor
            &&& given_by(field[k + 1].op, conflicts[k].value, conflicts[k].datatype)
        } by {
            assert(gives_element(l.ops[e][k + 1].op, l.object_id, e));
        }
    }
    assert forall|i: int| 0 <= i < all.len() implies (f(#[trigger] all[i]) is Some <==> any(all[i])) by {}
    lemma_filter_map(all, f, any);
    assert forall|i: int| 0 <= i < all.len() implies any(#[trigger] all[i]) by {
        assert(elems[i] == elems[i]);
    }
    lemma_filter_all(all, any);
    let sets = all.map_values(|d: Option<DiffView>| f(d)->Some_0);
    assert(l.element_diffs(elems) == sets);
    assert forall|i: int| 0 <= i < elems.len() implies steps[i + 1] == all[i]->Some_0 by {}
    elems
}

} // verus!

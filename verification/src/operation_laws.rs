//! What each operation does to the store, and what is noted to take it back.

use vstd::prelude::*;

use crate::actor_states::StatesView;
use crate::concurrent_operations::{all_assign, incorporated, placed};
use crate::diff::{ActionView, MapType, SequenceType};
use crate::error::ErrorView;
use crate::fields::{last_actor_first, last_actor_is_shown, lemma_filter_last_first};
use crate::ids::{element_named, ElementIDView, ObjectIDView};
use crate::objects::{applied_op, store_wf, ObjectView, StoreView};
use crate::protocol::{DataType, OpView, OperationView, PrimitiveView};
use crate::seqs::{lemma_filter_counts, lemma_filter_pair, lemma_filter_place};
use crate::text::{
    lemma_text_lt_irreflexive, lemma_text_lt_total, lemma_text_lt_transitive, quoted, text_lt,
};
use crate::told_laws::{tell_the_rest, works_on};
use crate::undo_laws::lemma_incorporated_values;

verus! {

/// Whether neither of the changes that two operations came in builds on the other.
pub open spec fn neither_builds_on_the_other(s: StatesView, a: OpView, b: OpView) -> bool {
    s.deps_of(a.actor, a.seq).get(b.actor) < b.seq && s.deps_of(b.actor, b.seq).get(a.actor) < a.seq
}

/// Whether `sum` is what comes of adding `by` to `n` in 64 bits.
pub open spec fn sums_up(n: i64, by: i64, sum: i64) -> bool {
    let over = n + by - sum;
    over == 0 || over == 0x1_0000_0000_0000_0000 || over == -0x1_0000_0000_0000_0000
}

/// Whether `after` is what a new operation on a field makes of `before`.
///
/// Setting and linking puts the operation in the field, before all others of its
/// actor, and takes those out that its change builds on. Deleting only takes out.
/// An increment adds to the counters that its change builds on, and to nothing
/// else.
pub open spec fn field_becomes(
    s: StatesView,
    before: Seq<OpView>,
    new: OpView,
    after: Seq<OpView>,
) -> bool {
    match new.op {
        OperationView::SetValue { .. } | OperationView::Link { .. } => {
            &&& forall|x: OpView| #[trigger]
                after.contains(x) <==> x == new || (before.contains(x)
                    && neither_builds_on_the_other(s, x, new))
            &&& exists|k: int|
                0 <= k < after.len() && after[k] == new && forall|j: int|
                    0 <= j < k ==> (#[trigger] after[j]).actor != new.actor
        },
        OperationView::Delete { .. } => {
            &&& after == before.filter(|x: OpView| neither_builds_on_the_other(s, x, new))
        },
        OperationView::Increment { value: by, .. } => {
            &&& after.len() == before.len()
            &&& forall|i: int|
                0 <= i < before.len() ==> {
                    &&& (#[trigger] after[i]).actor == before[i].actor
                    &&& after[i].seq == before[i].seq
                    &&& if neither_builds_on_the_other(s, before[i], new) {
                        after[i].op == before[i].op
                    } else {
                        match before[i].op {
                            OperationView::SetValue {
                                object_id,
                                key,
                                value: PrimitiveView::Number(n),
                                datatype: Some(DataType::Counter),
                            } => match after[i].op {
                                OperationView::SetValue {
                                    object_id: id,
                                    key: k,
                                    value: PrimitiveView::Number(sum),
                                    datatype: Some(DataType::Counter),
                                } => id == object_id && k == key && sums_up(n, by, sum),
                                _ => false,
                            },
                            _ => after[i].op == before[i].op,
                        }
                    }
                }
        },
        _ => false,
    }
}

/// Whether `undo` is what takes a new operation back on a field that held `before`:
/// for an increment, one that adds up with it to nothing; or else all that the
/// field held, in its order; or the deletion of the field, if it held nothing.
pub open spec fn undo_is_noted(
    before: Seq<OpView>,
    op: OperationView,
    id: ObjectIDView,
    key: Seq<char>,
    undo: Seq<OperationView>,
) -> bool {
    match op {
        OperationView::Increment { value, .. } => {
            &&& undo.len() == 1
            &&& undo[0] matches OperationView::Increment { object_id, key: k, value: back }
                && object_id == id && k == key && sums_up(value, back, 0)
        },
        _ => if before.len() == 0 {
            undo == seq![OperationView::Delete { object_id: id, key }]
        } else {
            &&& undo.len() == before.len()
            &&& forall|i: int| 0 <= i < before.len() ==> #[trigger] undo[i] == before[i].op
        },
    }
}

proof fn lemma_field_becomes(s: StatesView, before: Seq<OpView>, new: OpView)
    requires
        new.op.mutates(),
    ensures
        field_becomes(s, before, new, incorporated(s, before, new)),
{
    let after = incorporated(s, before, new);
    let p = |o: OpView| s.concurrent(o, new);
    let q = |o: OpView| neither_builds_on_the_other(s, o, new);
    match new.op {
        OperationView::SetValue { .. } | OperationView::Link { .. } => {
            lemma_incorporated_values(s, before, new);
            let kept = before.filter(p);
            let r = |o: OpView| text_lt(new.actor, o.actor);
            let above = kept.filter(r);
            let k = above.len() as int;
            assert(after[k] == new);
            assert forall|j: int| 0 <= j < k implies (#[trigger] after[j]).actor != new.actor by {
                assert(after[j] == above[j]);
                kept.lemma_filter_pred(r, j);
                lemma_text_lt_irreflexive(new.actor);
            }
        },
        OperationView::Delete { .. } => {
            assert(p =~= q);
        },
        _ => {},
    }
}

/// Where the operations of a field stand from the last actor to the first, those
/// of the actors after `actor` come before all others.
proof fn lemma_later_actors_come_first(field: Seq<OpView>, actor: Seq<char>, i: int, j: int)
    requires
        last_actor_first(field),
        0 <= i < j < field.len(),
        text_lt(actor, field[j].actor),
    ensures
        text_lt(actor, field[i].actor),
{
    let (x, y) = (field[i].actor, field[j].actor);
    assert(!text_lt(x, y));
    lemma_text_lt_total(x, y);
    if text_lt(y, x) {
        lemma_text_lt_transitive(actor, y, x);
    }
}

/// Whether two operations stand in a field in this order.
pub open spec fn stand_in_order(field: Seq<OpView>, x: OpView, y: OpView) -> bool {
    exists|a: int, b: int|
        0 <= a < b < field.len() && #[trigger] field[a] == x && #[trigger] field[b] == y
}

/// Operations that stand in order where some are left out stand so in the field.
proof fn lemma_order_kept(field: Seq<OpView>, p: spec_fn(OpView) -> bool, i: int, j: int)
    requires
        0 <= i < j < field.filter(p).len(),
    ensures
        stand_in_order(field, field.filter(p)[i], field.filter(p)[j]),
{
    let (a, b) = lemma_filter_pair(field, p, i, j);
    assert(field[a] == field.filter(p)[i] && field[b] == field.filter(p)[j]);
}

/// Those of the actors after `actor` stand before the others.
proof fn lemma_order_across(field: Seq<OpView>, actor: Seq<char>, i: int, j: int)
    requires
        last_actor_first(field),
        0 <= i < field.filter(|o: OpView| text_lt(actor, o.actor)).len(),
        0 <= j < field.filter(|o: OpView| !text_lt(actor, o.actor)).len(),
    ensures
        stand_in_order(
            field,
            field.filter(|o: OpView| text_lt(actor, o.actor))[i],
            field.filter(|o: OpView| !text_lt(actor, o.actor))[j],
        ),
{
    let r = |o: OpView| text_lt(actor, o.actor);
    let q = |o: OpView| !text_lt(actor, o.actor);
    let a = lemma_filter_place(field, r, i);
    let b = lemma_filter_place(field, q, j);
    assert(r(field[a]) && q(field[b]));
    if b < a {
        lemma_later_actors_come_first(field, actor, b, a);
    }
    assert(field[a] == field.filter(r)[i] && field[b] == field.filter(q)[j]);
}

/// An operation that gives a field a value gets a place among the others, which keep
/// their order.
proof fn lemma_placed_among(kept: Seq<OpView>, new: OpView) -> (at: int)
    requires
        last_actor_first(kept),
    ensures
        ({
            let after = placed(kept, new);
            &&& 0 <= at < after.len()
            &&& after[at] == new
            &&& after.len() == kept.len() + 1
            &&& forall|i: int| 0 <= i < at ==> text_lt(new.actor, (#[trigger] after[i]).actor)
            &&& forall|i: int|
                at < i < after.len() ==> !text_lt(new.actor, (#[trigger] after[i]).actor)
            &&& forall|i: int, j: int|
                0 <= i < j < after.len() && i != at && j != at ==> #[trigger] stand_in_order(
                    kept,
                    after[i],
                    after[j],
                )
        }),
{
    let after = placed(kept, new);
    let r = |o: OpView| text_lt(new.actor, o.actor);
    let q = |o: OpView| !text_lt(new.actor, o.actor);
    let above = kept.filter(r);
    let below = kept.filter(q);
    let at = above.len() as int;
    lemma_filter_counts(kept, r, q);
    assert forall|i: int| 0 <= i < at implies text_lt(new.actor, (#[trigger] after[i]).actor) by {
        kept.lemma_filter_pred(r, i);
        assert(after[i] == above[i]);
    }
    assert forall|i: int| at < i < after.len() implies !text_lt(
        new.actor,
        (#[trigger] after[i]).actor,
    ) by {
        kept.lemma_filter_pred(q, i - at - 1);
        assert(after[i] == below[i - at - 1]);
    }
    assert forall|i: int, j: int|
        0 <= i < j < after.len() && i != at && j != at implies #[trigger] stand_in_order(
        kept,
        after[i],
        after[j],
    ) by {
        if j < at {
            lemma_order_kept(kept, r, i, j);
        } else if i > at {
            lemma_order_kept(kept, q, i - at - 1, j - at - 1);
        } else {
            lemma_order_across(kept, new.actor, i, j - at - 1);
        }
    }
    at
}

/// Where the operations of a field stand from the last actor to the first, one that
/// sets the field or makes it refer to an object leaves those that it does not
/// replace in their order, and gets a place among them, after all operations of later actors and before all others.
pub proof fn field_keeps_its_order(s: StatesView, before: Seq<OpView>, new: OpView) -> (at: int)
    requires
        last_actor_first(before),
        new.op is SetValue || new.op is Link,
    ensures
        ({
            let after = incorporated(s, before, new);
            &&& 0 <= at < after.len()
            &&& after[at] == new
            &&& after.len() == before.filter(
                |x: OpView| neither_builds_on_the_other(s, x, new),
            ).len() + 1
            &&& forall|i: int| 0 <= i < at ==> text_lt(new.actor, (#[trigger] after[i]).actor)
            &&& forall|i: int|
                at < i < after.len() ==> !text_lt(new.actor, (#[trigger] after[i]).actor)
            &&& forall|i: int, j: int|
                0 <= i < j < after.len() && i != at && j != at ==> #[trigger] stand_in_order(
                    before,
                    after[i],
                    after[j],
                )
        }),
{
    let after = incorporated(s, before, new);
    let p = |o: OpView| s.concurrent(o, new);
    assert(p =~= (|o: OpView| neither_builds_on_the_other(s, o, new)));
    let kept = before.filter(p);
    lemma_filter_last_first(before, p);
    let at = lemma_placed_among(kept, new);
    assert forall|i: int, j: int|
        0 <= i < j < after.len() && i != at && j != at implies #[trigger] stand_in_order(
        before,
        after[i],
        after[j],
    ) by {
        assert(stand_in_order(kept, after[i], after[j]));
        let (a, b) = choose|a: int, b: int|
            0 <= a < b < kept.len() && #[trigger] kept[a] == after[i] && #[trigger] kept[b]
                == after[j];
        lemma_order_kept(before, p, a, b);
    }
    at
}

/// What a map or a list holds in a field.
pub open spec fn ops_in(object: ObjectView, key: Seq<char>) -> Seq<OpView> {
    match object {
        ObjectView::MapObject(m) => if m.ops.contains_key(key) {
            m.ops[key]
        } else {
            Seq::empty()
        },
        ObjectView::List(l) => match element_named(key) {
            Some(e) => if l.ops.contains_key(e) {
                l.ops[e]
            } else {
                Seq::empty()
            },
            None => Seq::empty(),
        },
    }
}

/// An operation on a field of a map changes that field, and nothing else: not the
/// other fields, not the type of the map, and no other object. What is noted to
/// take it back is what the field held.
pub proof fn operation_on_a_map_changes_its_field(
    store: StoreView,
    s: StatesView,
    op: OpView,
    id: ObjectIDView,
    key: Seq<char>,
)
    requires
        store.contains_key(id),
        store[id] is MapObject,
        works_on(op.op, id, key),
    ensures
        applied_op(store, s, op) matches Ok((after, report, undo)) && {
            let m = store[id]->MapObject_0;
            let n = after[id]->MapObject_0;
            &&& after.dom() == store.dom()
            &&& forall|x: ObjectIDView|
                x != id && #[trigger] store.contains_key(x) ==> after[x] == store[x]
            &&& after[id] is MapObject
            &&& n.map_type == m.map_type
            &&& n.object_id == m.object_id
            &&& n.ops.dom() == m.ops.dom().insert(key)
            &&& forall|k: Seq<char>|
                k != key && #[trigger] m.ops.contains_key(k) ==> n.ops[k] == m.ops[k]
            &&& field_becomes(s, ops_in(store[id], key), op, n.ops[key])
            &&& undo_is_noted(ops_in(store[id], key), op.op, id, key, undo)
        },
{
    let m = store[id]->MapObject_0;
    lemma_field_becomes(s, ops_in(store[id], key), op);
    let after = applied_op(store, s, op)->Ok_0.0;
    assert(after.dom() =~= store.dom());
    assert(after[id]->MapObject_0.ops.dom() =~= m.ops.dom().insert(key));
}

/// An operation on an element of a list changes what that element holds, and
/// nothing else: not the other elements, not their order, not the type of the list,
/// and no other object. What is noted to take it back is what the element held.
pub proof fn operation_on_a_list_changes_its_element(
    store: StoreView,
    s: StatesView,
    op: OpView,
    id: ObjectIDView,
    key: Seq<char>,
    e: ElementIDView,
)
    requires
        store.contains_key(id),
        store[id] is List,
        works_on(op.op, id, key),
        element_named(key) == Some(e),
    ensures
        applied_op(store, s, op) matches Ok((after, report, undo)) && {
            let l = store[id]->List_0;
            let k = after[id]->List_0;
            &&& after.dom() == store.dom()
            &&& forall|x: ObjectIDView|
                x != id && #[trigger] store.contains_key(x) ==> after[x] == store[x]
            &&& after[id] is List
            &&& k.sequence_type == l.sequence_type
            &&& k.object_id == l.object_id
            &&& k.max_elem == l.max_elem
            &&& k.insertions == l.insertions
            &&& k.following == l.following
            &&& k.ops.dom() == l.ops.dom().insert(e)
            &&& forall|x: ElementIDView|
                x != e && #[trigger] l.ops.contains_key(x) ==> k.ops[x] == l.ops[x]
            &&& field_becomes(s, ops_in(store[id], key), op, k.ops[e])
            &&& undo_is_noted(ops_in(store[id], key), op.op, id, key, undo)
        },
{
    let l = store[id]->List_0;
    lemma_field_becomes(s, ops_in(store[id], key), op);
    let after = applied_op(store, s, op)->Ok_0.0;
    assert(after.dom() =~= store.dom());
    assert(after[id]->List_0.ops.dom() =~= l.ops.dom().insert(e));
}

/// An insertion puts the element that the actor of the operation and the counter
/// name after the element that the operation names, as one that holds nothing but
/// what operations gave it before. It keeps the largest counter, reports that, with
/// all that the element holds but the first as conflicts, and changes nothing else: not the other elements, not the type of the list, and no
/// other object. There is nothing that takes it back.
pub proof fn insertion_adds_an_element(
    store: StoreView,
    s: StatesView,
    op: OpView,
    id: ObjectIDView,
    parent: ElementIDView,
    elem: u32,
)
    requires
        store.contains_key(id),
        store[id] is List,
        store_wf(store),
        op.op == (OperationView::Insert { list_id: id, key: parent, elem }),
        !store[id]->List_0.insertions.contains_key(
            ElementIDView::SpecificElementID(op.actor, elem),
        ),
    ensures
        applied_op(store, s, op) matches Ok((after, report, undo)) && {
            let l = store[id]->List_0;
            let k = after[id]->List_0;
            let new = ElementIDView::SpecificElementID(op.actor, elem);
            &&& after.dom() == store.dom()
            &&& forall|x: ObjectIDView|
                x != id && #[trigger] store.contains_key(x) ==> after[x] == store[x]
            &&& after[id] is List
            &&& k.sequence_type == l.sequence_type
            &&& k.object_id == l.object_id
            &&& k.max_elem >= l.max_elem && k.max_elem >= elem
            &&& k.max_elem == l.max_elem || k.max_elem == elem
            &&& k.insertions == l.insertions.insert(new, new)
            &&& k.following.contains_key(parent)
            &&& k.following.dom() == l.following.dom().insert(parent)
            &&& forall|x: ElementIDView|
                x != parent && #[trigger] l.following.contains_key(x) ==> k.following[x]
                    == l.following[x]
            &&& l.following.contains_key(parent) ==> k.following[parent]
                == l.following[parent].push(new)
            &&& !l.following.contains_key(parent) ==> k.following[parent] == seq![new]
            &&& k.ops.dom() == l.ops.dom().insert(new)
            &&& forall|x: ElementIDView| #[trigger]
                l.ops.contains_key(x) ==> k.ops[x] == l.ops[x]
            &&& !l.ops.contains_key(new) ==> k.ops[new].len() == 0
            &&& report matches Some(d) && d.action == ActionView::MaxElem(
                l.object_id,
                k.max_elem,
                l.sequence_type,
            ) && tell_the_rest(d.conflicts, k.ops[new])
            &&& undo.len() == 0
        },
{
    let l = store[id]->List_0;
    assert(store[id].wf());
    let new = ElementIDView::SpecificElementID(op.actor, elem);
    let after = applied_op(store, s, op)->Ok_0.0;
    let k = after[id]->List_0;
    assert(l.ops.contains_key(new) ==> all_assign(l.ops[new]));
    assert(after.dom() =~= store.dom());
    assert(k.ops.dom() =~= l.ops.dom().insert(new));
    assert(k.following.dom() =~= l.following.dom().insert(parent));
    if !l.following.contains_key(parent) {
        assert(k.following[parent] =~= seq![new]);
    }
}

/// Whether in each field of an object the operations stand from those of the last
/// actor to those of the first.
pub open spec fn actors_in_order(object: ObjectView) -> bool {
    match object {
        ObjectView::MapObject(m) => forall|k: Seq<char>| #[trigger]
            m.ops.contains_key(k) ==> last_actor_first(m.ops[k]),
        ObjectView::List(l) => forall|e: ElementIDView| #[trigger]
            l.ops.contains_key(e) ==> last_actor_first(l.ops[e]),
    }
}

/// Operations leave all fields in the order of their actors, so that the value that
/// is shown in a field is always one of the last actor that has one there.
pub proof fn fields_stay_in_the_order_of_their_actors(store: StoreView, s: StatesView, op: OpView)
    requires
        forall|id: ObjectIDView| #[trigger] store.contains_key(id) ==> actors_in_order(store[id]),
    ensures
        applied_op(store, s, op) matches Ok((after, _, _)) ==> forall|id: ObjectIDView| #[trigger]
            after.contains_key(id) ==> actors_in_order(after[id]),
{
    if let Ok((after, _, _)) = applied_op(store, s, op) {
        assert forall|id: ObjectIDView| #[trigger] after.contains_key(id) implies actors_in_order(
            after[id],
        ) by {
            if store.contains_key(id) {
                assert(actors_in_order(store[id]));
                match op.op {
                    OperationView::SetValue { key, .. }
                    | OperationView::Link { key, .. }
                    | OperationView::Delete { key, .. }
                    | OperationView::Increment { key, .. } => {
                        last_actor_is_shown(s, ops_in(store[id], key), op);
                    },
                    _ => {},
                }
            }
        }
    }
}

/// Making an object puts an empty one of the right kind into the store, under the
/// ID that the operation gives: a plain map, a table, a list or a text. What is
/// reported is its creation, with the same type. No other object is changed, and
/// there is nothing that takes it back.
pub proof fn making_puts_an_empty_object_there(
    store: StoreView,
    s: StatesView,
    op: OpView,
    id: ObjectIDView,
)
    ensures
        op.op == (OperationView::MakeMap { object_id: id }) ==> made_as_map(
            store,
            s,
            op,
            id,
            MapType::PlainMap,
        ),
        op.op == (OperationView::MakeTable { object_id: id }) ==> made_as_map(
            store,
            s,
            op,
            id,
            MapType::Table,
        ),
        op.op == (OperationView::MakeList { object_id: id }) ==> made_as_list(
            store,
            s,
            op,
            id,
            SequenceType::List,
        ),
        op.op == (OperationView::MakeText { object_id: id }) ==> made_as_list(
            store,
            s,
            op,
            id,
            SequenceType::Text,
        ),
{
    if let Ok((after, _, _)) = applied_op(store, s, op) {
        assert(after.dom() =~= store.dom().insert(op.op.object()) || !op.op.makes());
    }
}

/// Whether an operation makes an empty map of a type.
pub open spec fn made_as_map(
    store: StoreView,
    s: StatesView,
    op: OpView,
    id: ObjectIDView,
    map_type: MapType,
) -> bool {
    applied_op(store, s, op) matches Ok((after, report, undo)) && {
        let m = after[id]->MapObject_0;
        &&& after.dom() == store.dom().insert(id)
        &&& forall|x: ObjectIDView|
            x != id && #[trigger] store.contains_key(x) ==> after[x] == store[x]
        &&& after[id] is MapObject
        &&& m.map_type == map_type
        &&& m.object_id == id
        &&& m.ops == Map::<Seq<char>, Seq<OpView>>::empty()
        &&& m.keys.len() == 0
        &&& report matches Some(d) && d.action == ActionView::CreateMap(id, map_type)
            && d.conflicts.len() == 0
        &&& undo.len() == 0
    }
}

/// Whether an operation makes an empty sequence of a type.
pub open spec fn made_as_list(
    store: StoreView,
    s: StatesView,
    op: OpView,
    id: ObjectIDView,
    sequence_type: SequenceType,
) -> bool {
    applied_op(store, s, op) matches Ok((after, report, undo)) && {
        let l = after[id]->List_0;
        &&& after.dom() == store.dom().insert(id)
        &&& forall|x: ObjectIDView|
            x != id && #[trigger] store.contains_key(x) ==> after[x] == store[x]
        &&& after[id] is List
        &&& l.sequence_type == sequence_type
        &&& l.object_id == id
        &&& l.max_elem == 0
        &&& l.ops == Map::<ElementIDView, Seq<OpView>>::empty()
        &&& l.insertions == Map::<ElementIDView, ElementIDView>::empty()
        &&& l.following == Map::<ElementIDView, Seq<ElementIDView>>::empty()
        &&& report matches Some(d) && d.action == ActionView::CreateList(id, sequence_type)
            && d.conflicts.len() == 0
        &&& undo.len() == 0
    }
}

/// Only an operation that makes an object anew changes what kind of object it is.
pub proof fn objects_keep_their_type(
    store: StoreView,
    s: StatesView,
    op: OpView,
    id: ObjectIDView,
)
    requires
        store.contains_key(id),
        op.op != (OperationView::MakeMap { object_id: id }),
        op.op != (OperationView::MakeTable { object_id: id }),
        op.op != (OperationView::MakeList { object_id: id }),
        op.op != (OperationView::MakeText { object_id: id }),
    ensures
        applied_op(store, s, op) matches Ok((after, _, _)) ==> after.contains_key(id) && match (
            store[id],
            after[id],
        ) {
            (ObjectView::MapObject(m), ObjectView::MapObject(n)) => n.map_type == m.map_type
                && n.object_id == m.object_id,
            (ObjectView::List(l), ObjectView::List(k)) => k.sequence_type == l.sequence_type
                && k.object_id == l.object_id,
            _ => false,
        },
{
}

/// An operation on an object that is not in the store is refused, and the object is
/// named.
pub proof fn operation_on_a_missing_object_is_refused(
    store: StoreView,
    s: StatesView,
    op: OpView,
    id: ObjectIDView,
)
    requires
        !store.contains_key(id),
        ({
            ||| exists|key: Seq<char>| works_on(op.op, id, key)
            ||| op.op matches OperationView::Insert { list_id, .. } && list_id == id
        }),
    ensures
        applied_op(store, s, op) matches Err(ErrorView::MissingObjectError(x)) && x == id,
{
}

/// An operation on a field of a list is refused if its key names no element.
pub proof fn key_that_names_no_element_is_refused(
    store: StoreView,
    s: StatesView,
    op: OpView,
    id: ObjectIDView,
    key: Seq<char>,
)
    requires
        store.contains_key(id),
        store[id] is List,
        works_on(op.op, id, key),
        element_named(key) is None,
    ensures
        applied_op(store, s, op) matches Err(ErrorView::InvalidChange(text)) && text
            == "Attempted to link, set, delete, or increment an object in a list with invalid element ID "@
            + quoted(key),
{
}

/// An insertion is refused if it is on a map, or if the element was inserted before.
pub proof fn insertion_that_cannot_be_is_refused(
    store: StoreView,
    s: StatesView,
    op: OpView,
    id: ObjectIDView,
    parent: ElementIDView,
    elem: u32,
)
    requires
        store.contains_key(id),
        op.op == (OperationView::Insert { list_id: id, key: parent, elem }),
        store[id] is MapObject || store[id]->List_0.insertions.contains_key(
            ElementIDView::SpecificElementID(op.actor, elem),
        ),
    ensures
        applied_op(store, s, op) matches Err(ErrorView::InvalidChange(text)) && {
            &&& store[id] is MapObject ==> text
                == "Insert operation received for object key (object ID: "@ + id.shown()
                + ", key: "@ + parent.shown()
            &&& store[id] is List ==> text == "Received an insertion for already present key: "@
                + ElementIDView::SpecificElementID(op.actor, elem).shown()
        },
{
}

} // verus!

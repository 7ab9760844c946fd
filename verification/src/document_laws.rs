//! Which objects the steps make that make a whole document.

use vstd::prelude::*;

use crate::diff::{ActionView, ConflictView, DiffView, ValueView};
use crate::ids::{ElementIDView, ObjectIDView};
use crate::objects::{
    diffs_backwards, document_diffs, document_visits, links_in, not_in, store_wf, visits,
    ObjectView, StoreView,
};
use crate::protocol::OperationView;
use crate::report_laws::{
    document_makes_what_is_reached, lemma_backwards_splits, lemma_one_backwards, reached,
    reached_in, refers,
};
use crate::seqs::{
    lemma_filter_all, lemma_filter_holds, lemma_filter_none, lemma_reverse_push,
};
use crate::store_laws::sound_store;
use crate::told_laws::{
    elements, list_is_made_by_its_elements, map_is_made_by_its_fields,
};

verus! {

/// A step refers to an object if and only if the value that it sets is a reference
/// to the object, in a map or in a list, or one of its conflicts is.
pub proof fn step_refers_to_what_its_values_are(d: DiffView, to: ObjectIDView)
    ensures
        d.links().contains(to) <==> {
            ||| match d.action {
                ActionView::SetMapKey(_, _, _, value, _) => value == ValueView::Link(to),
                ActionView::InsertSequenceElement(_, _, _, value, _, _) => value == ValueView::Link(
                    to,
                ),
                ActionView::SetSequenceElement(_, _, _, value, _) => value == ValueView::Link(to),
                _ => false,
            }
            ||| exists|i: int|
                0 <= i < d.conflicts.len() && (#[trigger] d.conflicts[i]).value == ValueView::Link(
                    to,
                )
        },
{
    let f = |c: ConflictView| c.value.target();
    let first = match d.action.value_set() {
        Some(ValueView::Link(id)) => seq![id],
        _ => Seq::<ObjectIDView>::empty(),
    };
    let rest = d.conflicts.filter_map(f);
    assert(d.links() == first + rest);
    if d.links().contains(to) {
        let j = choose|j: int| 0 <= j < d.links().len() && d.links()[j] == to;
        if j >= first.len() {
            assert(rest[j - first.len()] == to);
            assert(rest.contains(to));
            d.conflicts.lemma_filter_map_contains(f, to);
            let x = choose|x: ConflictView| d.conflicts.contains(x) && #[trigger] f(x) == Some(to);
            let i = choose|i: int| 0 <= i < d.conflicts.len() && d.conflicts[i] == x;
            assert(d.conflicts[i].value == ValueView::Link(to));
        } else {
            assert(first[j] == to);
        }
    }
    if exists|i: int|
        0 <= i < d.conflicts.len() && (#[trigger] d.conflicts[i]).value == ValueView::Link(to) {
        let i = choose|i: int|
            0 <= i < d.conflicts.len() && (#[trigger] d.conflicts[i]).value == ValueView::Link(to);
        lemma_filter_map_has(d.conflicts, f, i, to);
        let j = choose|j: int| 0 <= j < rest.len() && rest[j] == to;
        assert(d.links()[first.len() + j] == to);
    }
    if first.len() > 0 {
        assert(d.links()[0] == first[0]);
    }
}

proof fn lemma_filter_map_has<A, B>(s: Seq<A>, f: spec_fn(A) -> Option<B>, i: int, b: B)
    requires
        0 <= i < s.len(),
        f(s[i]) == Some(b),
    ensures
        s.filter_map(f).contains(b),
    decreases s.len(),
{
    let rest = s.drop_last();
    let all = s.filter_map(f);
    if i == s.len() - 1 {
        assert(all == rest.filter_map(f) + seq![b]);
        assert(all[all.len() - 1] == b);
    } else {
        assert(rest[i] == s[i]);
        lemma_filter_map_has(rest, f, i, b);
        let before = rest.filter_map(f);
        let j = choose|j: int| 0 <= j < before.len() && before[j] == b;
        assert(all[j] == b);
    }
}

/// A list of steps refers to what one of its steps refers to.
proof fn lemma_links_in(steps: Seq<DiffView>, to: ObjectIDView)
    ensures
        links_in(steps).contains(to) <==> exists|j: int|
            0 <= j < steps.len() && (#[trigger] steps[j]).links().contains(to),
    decreases steps.len(),
{
    if steps.len() > 0 {
        let rest = steps.drop_last();
        let last = steps.last().links();
        let before = links_in(rest);
        let all = links_in(steps);
        assert(all == before + last);
        lemma_links_in(rest, to);
        if all.contains(to) {
            let k = choose|k: int| 0 <= k < all.len() && all[k] == to;
            if k < before.len() {
                assert(before[k] == to);
                let j = choose|j: int|
                    0 <= j < rest.len() && (#[trigger] rest[j]).links().contains(to);
                assert(steps[j].links().contains(to));
            } else {
                assert(last[k - before.len()] == to);
                assert(steps[steps.len() - 1].links().contains(to));
            }
        }
        if exists|j: int| 0 <= j < steps.len() && (#[trigger] steps[j]).links().contains(to) {
            let j = choose|j: int|
                0 <= j < steps.len() && (#[trigger] steps[j]).links().contains(to);
            if j < rest.len() {
                assert(rest[j].links().contains(to));
                let k = choose|k: int| 0 <= k < before.len() && before[k] == to;
                assert(all[k] == to);
            } else {
                let k = choose|k: int| 0 <= k < last.len() && last[k] == to;
                assert(all[before.len() + k] == to);
            }
        }
    }
}

/// Whether an operation links a field to the object `to`.
pub open spec fn links_to(op: OperationView, to: ObjectIDView) -> bool {
    match op {
        OperationView::Link { value, .. } => value == to,
        _ => false,
    }
}

/// Whether a field of an object, or an element of the order of a list, holds an
/// operation that links it to the object `to`, whether that is shown or a conflict.
pub open spec fn holds_link(object: ObjectView, to: ObjectIDView) -> bool {
    match object {
        ObjectView::MapObject(m) => exists|key: Seq<char>, i: int|
            m.ops.contains_key(key) && 0 <= i < m.ops[key].len() && links_to(
                (#[trigger] m.ops[key][i]).op,
                to,
            ),
        ObjectView::List(l) => exists|e: ElementIDView, i: int|
            elements(l).contains(e) && 0 <= i < l.ops[e].len() && links_to(
                (#[trigger] l.ops[e][i]).op,
                to,
            ),
    }
}

proof fn lemma_map_refers(store: StoreView, from: ObjectIDView, to: ObjectIDView)
    requires
        store_wf(store),
        sound_store(store),
        store.contains_key(from),
        store[from] is MapObject,
    ensures
        refers(store, from, to) <==> holds_link(store[from], to),
{
    let m = store[from]->MapObject_0;
    let steps = store[from].diffs();
    let keys = map_is_made_by_its_fields(store, from);
    let n: int = if from is Root {
        0
    } else {
        1
    };
    lemma_links_in(steps, to);
    if refers(store, from, to) {
        let j = choose|j: int| 0 <= j < steps.len() && (#[trigger] steps[j]).links().contains(to);
        step_refers_to_what_its_values_are(steps[j], to);
        if j < n {
            assert(steps[0].conflicts.len() == 0);
        } else {
            let k = keys[j - n];
            assert(keys.contains(k));
            assert(steps[n + (j - n)] == steps[j]);
            let field = m.ops[k];
            if steps[j].action->SetMapKey_3 == ValueView::Link(to) {
                assert(links_to(m.ops[k][0].op, to));
            } else {
                let i = choose|i: int|
                    0 <= i < steps[j].conflicts.len() && (#[trigger] steps[j].conflicts[i]).value
                        == ValueView::Link(to);
                assert(links_to(m.ops[k][i + 1].op, to));
            }
        }
    }
    if holds_link(store[from], to) {
        let (k, i) = choose|k: Seq<char>, i: int|
            m.ops.contains_key(k) && 0 <= i < m.ops[k].len() && links_to(
                (#[trigger] m.ops[k][i]).op,
                to,
            );
        assert(keys.contains(k));
        let j = choose|j: int| 0 <= j < keys.len() && keys[j] == k;
        let d = steps[n + j];
        step_refers_to_what_its_values_are(d, to);
        if i > 0 {
            assert(d.conflicts[i - 1].value == ValueView::Link(to));
        }
        assert(steps[n + j].links().contains(to));
    }
}

proof fn lemma_list_refers(store: StoreView, from: ObjectIDView, to: ObjectIDView)
    requires
        store_wf(store),
        sound_store(store),
        store.contains_key(from),
        store[from] is List,
    ensures
        refers(store, from, to) <==> holds_link(store[from], to),
{
    let l = store[from]->List_0;
    let steps = store[from].diffs();
    let elems = list_is_made_by_its_elements(store, from);
    let order = elements(l);
    let q = |e: ElementIDView| l.ops[e].len() > 0;
    lemma_filter_holds(order.reverse(), q);
    lemma_links_in(steps, to);
    if refers(store, from, to) {
        let j = choose|j: int| 0 <= j < steps.len() && (#[trigger] steps[j]).links().contains(to);
        step_refers_to_what_its_values_are(steps[j], to);
        if j == 0 {
            assert(steps[0].conflicts.len() == 0);
        } else if j == steps.len() - 1 {
            assert(steps.last().conflicts.len() == 0);
        } else {
            let e = elems[j - 1];
            assert(elems.contains(e));
            assert(order.reverse().contains(e));
            let x = choose|x: int| 0 <= x < order.len() && order.reverse()[x] == e;
            assert(order[order.len() - 1 - x] == e);
            assert(order.contains(e));
            assert(steps[(j - 1) + 1] == steps[j]);
            if steps[j].action->InsertSequenceElement_3 == ValueView::Link(to) {
                assert(links_to(l.ops[e][0].op, to));
            } else {
                let i = choose|i: int|
                    0 <= i < steps[j].conflicts.len() && (#[trigger] steps[j].conflicts[i]).value
                        == ValueView::Link(to);
                assert(links_to(l.ops[e][i + 1].op, to));
            }
        }
    }
    if holds_link(store[from], to) {
        let (e, i) = choose|e: ElementIDView, i: int|
            elements(l).contains(e) && 0 <= i < l.ops[e].len() && links_to(
                (#[trigger] l.ops[e][i]).op,
                to,
            );
        let x = choose|x: int| 0 <= x < order.len() && order[x] == e;
        assert(order.reverse()[order.len() - 1 - x] == e);
        assert(order.reverse().contains(e));
        assert(elems.contains(e));
        let j = choose|j: int| 0 <= j < elems.len() && elems[j] == e;
        let d = steps[j + 1];
        step_refers_to_what_its_values_are(d, to);
        if i > 0 {
            assert(d.conflicts[i - 1].value == ValueView::Link(to));
        }
        assert(steps[j + 1].links().contains(to));
    }
}

/// The steps that make an object refer to another object if and only if a field or
/// an element of it holds a link to that object.
pub proof fn steps_refer_to_held_links(store: StoreView, from: ObjectIDView, to: ObjectIDView)
    requires
        store_wf(store),
        sound_store(store),
    ensures
        refers(store, from, to) <==> store.contains_key(from) && holds_link(store[from], to),
{
    if store.contains_key(from) {
        match store[from] {
            ObjectView::MapObject(_) => lemma_map_refers(store, from, to),
            ObjectView::List(_) => lemma_list_refers(store, from, to),
        }
    }
}

/// A step refers to the object of the value that it sets first, and then to those of
/// its conflicts, in their order, as often as they are there.
pub proof fn step_refers_in_order(
    action: ActionView,
    conflicts: Seq<ConflictView>,
    c: ConflictView,
)
    ensures
        ({
            let none = DiffView { action, conflicts: Seq::empty() };
            let before = DiffView { action, conflicts };
            let after = DiffView { action, conflicts: conflicts.push(c) };
            &&& none.links() == match action {
                ActionView::SetMapKey(_, _, _, ValueView::Link(id), _) => seq![id],
                ActionView::InsertSequenceElement(_, _, _, ValueView::Link(id), _, _) => seq![id],
                ActionView::SetSequenceElement(_, _, _, ValueView::Link(id), _) => seq![id],
                _ => Seq::empty(),
            }
            &&& after.links() == match c.value {
                ValueView::Link(id) => before.links().push(id),
                ValueView::Primitive(_) => before.links(),
            }
        }),
{
    let f = |x: ConflictView| x.value.target();
    let none = Seq::<ConflictView>::empty();
    let all = conflicts.push(c);
    assert(none.filter_map(f) =~= Seq::<ObjectIDView>::empty()) by {
        reveal(Seq::filter_map);
    }
    all.lemma_filter_map_take_succ(f, conflicts.len() as int);
    assert(all.take(conflicts.len() as int) =~= conflicts);
    assert(all.take(conflicts.len() as int + 1) =~= all);
    let first = DiffView { action, conflicts: none }.links();
    let before = DiffView { action, conflicts }.links();
    let after = DiffView { action, conflicts: all }.links();
    assert(first + none.filter_map(f) =~= first);
    if let ValueView::Link(id) = c.value {
        assert(after =~= before.push(id));
    } else {
        assert(after =~= before);
    }
}

/// Steps refer to what each of them refers to, one after the other.
pub proof fn steps_refer_in_order(steps: Seq<DiffView>, d: DiffView)
    ensures
        links_in(Seq::empty()).len() == 0,
        links_in(steps.push(d)) == links_in(steps) + d.links(),
{
    assert(steps.push(d).drop_last() =~= steps);
}

/// The steps of a list of objects, one object after the other.
pub open spec fn made_in_turn(store: StoreView, ids: Seq<ObjectIDView>) -> Seq<DiffView>
    decreases ids.len(),
{
    if ids.len() == 0 {
        Seq::empty()
    } else {
        made_in_turn(store, ids.drop_last()) + store[ids.last()].diffs()
    }
}

proof fn lemma_backwards_in_turn(store: StoreView, ids: Seq<ObjectIDView>)
    ensures
        diffs_backwards(store, ids.reverse()) == made_in_turn(store, ids),
    decreases ids.len(),
{
    if ids.len() > 0 {
        lemma_backwards_in_turn(store, ids.drop_last());
        assert(ids.reverse().drop_first() =~= ids.drop_last().reverse());
        assert(ids.reverse()[0] == ids.last());
    }
}

/// From an object that refers to nothing the walk goes on to the rest of the stack.
proof fn lemma_flat_step(store: StoreView, stack: Seq<ObjectIDView>, seen: Set<ObjectIDView>)
    requires
        store.dom().finite(),
        stack.len() > 0,
        store.contains_key(stack.last()),
        links_in(store[stack.last()].diffs()).len() == 0,
    ensures
        visits(store, stack, seen) == seq![stack.last()] + visits(
            store,
            stack.drop_last(),
            seen.insert(stack.last()),
        ),
{
    let links = links_in(store[stack.last()].diffs());
    lemma_filter_none(links, |id: ObjectIDView| !seen.contains(id));
    assert(stack.drop_last() + Seq::empty() =~= stack.drop_last());
}

proof fn lemma_flat_visits(store: StoreView, stack: Seq<ObjectIDView>, seen: Set<ObjectIDView>)
    requires
        store.dom().finite(),
        forall|i: int|
            0 <= i < stack.len() && store.contains_key(#[trigger] stack[i]) ==> links_in(
                store[stack[i]].diffs(),
            ).len() == 0,
    ensures
        visits(store, stack, seen) == stack.filter(
            |id: ObjectIDView| store.contains_key(id),
        ).reverse(),
    decreases stack.len(),
{
    let p = |id: ObjectIDView| store.contains_key(id);
    if stack.len() == 0 {
        lemma_filter_none(stack, p);
    } else {
        let id = stack.last();
        let rest = stack.drop_last();
        assert(stack =~= rest.push(id));
        rest.lemma_filter_push(id, p);
        assert forall|i: int| 0 <= i < rest.len() && store.contains_key(#[trigger] rest[i]) implies links_in(
            store[rest[i]].diffs(),
        ).len() == 0 by {
            assert(rest[i] == stack[i]);
        }
        if store.contains_key(id) {
            assert(stack[stack.len() - 1] == id);
            lemma_flat_step(store, stack, seen);
            lemma_flat_visits(store, rest, seen.insert(id));
            lemma_reverse_push(rest.filter(p), id);
        } else {
            lemma_flat_visits(store, rest, seen);
        }
    }
}

/// The walk through a document goes to the root first, and then to all that the root
/// refers to.
proof fn lemma_root_first(store: StoreView)
    requires
        store.dom().finite(),
        store.contains_key(ObjectIDView::Root),
    ensures
        document_visits(store) == seq![ObjectIDView::Root] + visits(
            store,
            links_in(store[ObjectIDView::Root].diffs()),
            Set::empty().insert(ObjectIDView::Root),
        ),
{
    let root = ObjectIDView::Root;
    let links = links_in(store[root].diffs());
    let none = Set::<ObjectIDView>::empty();
    let start = seq![root];
    assert(start.drop_last() + not_in(links, none) == links) by {
        assert(start.drop_last() + not_in(links, none) =~= not_in(links, none));
        lemma_filter_all(links, |id: ObjectIDView| !none.contains(id));
    }
    assert(start.last() == root);
}

/// Where the objects that the root refers to refer to nothing, the steps of the
/// document are those of these objects, in the order in which the root refers to
/// them, and as often; and then those of the root.
pub proof fn flat_document_is_made_in_the_order_of_its_links(store: StoreView)
    requires
        store.dom().finite(),
        store.contains_key(ObjectIDView::Root),
        forall|id: ObjectIDView| #[trigger]
            links_in(store[ObjectIDView::Root].diffs()).contains(id) && store.contains_key(id)
                ==> links_in(store[id].diffs()).len() == 0,
    ensures
        document_diffs(store) == made_in_turn(
            store,
            links_in(store[ObjectIDView::Root].diffs()).filter(
                |id: ObjectIDView| store.contains_key(id),
            ),
        ) + store[ObjectIDView::Root].diffs(),
{
    let root = ObjectIDView::Root;
    let links = links_in(store[root].diffs());
    let p = |id: ObjectIDView| store.contains_key(id);
    assert forall|i: int| 0 <= i < links.len() && store.contains_key(#[trigger] links[i]) implies links_in(
        store[links[i]].diffs(),
    ).len() == 0 by {
        assert(links.contains(links[i]));
    }
    let tail = visits(store, links, Set::empty().insert(root));
    lemma_flat_visits(store, links, Set::empty().insert(root));
    lemma_root_first(store);
    let all = document_visits(store);
    assert(all[0] == root);
    assert(all.drop_first() =~= tail);
    lemma_backwards_in_turn(store, links.filter(p));
}

/// Whether a step makes the object `id`.
pub open spec fn creates(d: DiffView, id: ObjectIDView) -> bool {
    match d.action {
        ActionView::CreateMap(x, _) => x == id,
        ActionView::CreateList(x, _) => x == id,
        _ => false,
    }
}

/// Whether an object is there for a client that follows the steps of a document:
/// it is the root, or one of the steps makes it.
pub open spec fn made(store: StoreView, id: ObjectIDView) -> bool {
    id is Root || exists|i: int|
        0 <= i < document_diffs(store).len() && creates(#[trigger] document_diffs(store)[i], id)
}

/// The steps of an object make that object, unless it is the root, and no other.
proof fn lemma_own_steps(store: StoreView, id: ObjectIDView)
    requires
        store_wf(store),
        sound_store(store),
        store.contains_key(id),
    ensures
        !(id is Root) ==> store[id].diffs().len() > 0 && creates(store[id].diffs()[0], id),
        forall|i: int, x: ObjectIDView|
            0 <= i < store[id].diffs().len() && #[trigger] creates(store[id].diffs()[i], x) ==> x
                == id,
{
    let steps = store[id].diffs();
    match store[id] {
        ObjectView::MapObject(_) => {
            let keys = map_is_made_by_its_fields(store, id);
            let n: int = if id is Root {
                0
            } else {
                1
            };
            assert forall|i: int, x: ObjectIDView|
                0 <= i < steps.len() && #[trigger] creates(steps[i], x) implies x == id by {
                if i >= n {
                    assert(keys.contains(keys[i - n]));
                    assert(steps[n + (i - n)] == steps[i]);
                }
            }
        },
        ObjectView::List(_) => {
            let elems = list_is_made_by_its_elements(store, id);
            assert(steps[0].action is CreateList);
            assert forall|i: int, x: ObjectIDView|
                0 <= i < steps.len() && #[trigger] creates(steps[i], x) implies x == id by {
                if 0 < i < steps.len() - 1 {
                    assert(elems.contains(elems[i - 1]));
                    assert(steps[(i - 1) + 1] == steps[i]);
                    assert(steps[i].action is InsertSequenceElement);
                } else if i > 0 {
                    assert(steps[i] == steps.last());
                    assert(steps[i].action is MaxElem);
                }
            }
        },
    }
}

/// The steps of an object that is gone to are all there, one after the other.
proof fn lemma_steps_are_there(store: StoreView, ids: Seq<ObjectIDView>, i: int) -> (at: int)
    requires
        0 <= i < ids.len(),
    ensures
        0 <= at,
        at + store[ids[i]].diffs().len() <= diffs_backwards(store, ids).len(),
        diffs_backwards(store, ids).subrange(at, at + store[ids[i]].diffs().len())
            == store[ids[i]].diffs(),
{
    let own = store[ids[i]].diffs();
    let a = ids.take(i);
    let b = ids.skip(i + 1);
    let one = seq![ids[i]];
    assert(ids =~= a + (one + b));
    lemma_backwards_splits(store, a, one + b);
    lemma_backwards_splits(store, one, b);
    lemma_one_backwards(store, ids[i]);
    let at = diffs_backwards(store, b).len() as int;
    assert(diffs_backwards(store, ids).subrange(at, at + own.len()) =~= own);
    at
}

/// A step of a list of objects is a step of one of them.
proof fn lemma_step_of_one(store: StoreView, ids: Seq<ObjectIDView>, j: int) -> (r: (int, int))
    requires
        0 <= j < diffs_backwards(store, ids).len(),
    ensures
        0 <= r.0 < ids.len(),
        0 <= r.1 < store[ids[r.0]].diffs().len(),
        diffs_backwards(store, ids)[j] == store[ids[r.0]].diffs()[r.1],
    decreases ids.len(),
{
    let rest = diffs_backwards(store, ids.drop_first());
    if j < rest.len() {
        let (i, k) = lemma_step_of_one(store, ids.drop_first(), j);
        (i + 1, k)
    } else {
        (0, j - rest.len())
    }
}

/// An object is made by the steps of a document if and only if it is in the store
/// and reached from the root.
proof fn lemma_made(store: StoreView, id: ObjectIDView)
    requires
        store_wf(store),
        sound_store(store),
    ensures
        made(store, id) <==> store.contains_key(id) && reached(store, id),
{
    let all = document_visits(store);
    let steps = document_diffs(store);
    document_makes_what_is_reached(store, id);
    if id is Root {
        assert(reached_in(store, id, 0));
    } else {
        if made(store, id) {
            let j = choose|j: int| 0 <= j < steps.len() && creates(#[trigger] steps[j], id);
            let (i, k) = lemma_step_of_one(store, all, j);
            assert(all.contains(all[i]));
            document_makes_what_is_reached(store, all[i]);
            lemma_own_steps(store, all[i]);
            assert(creates(store[all[i]].diffs()[k], id));
        }
        if store.contains_key(id) && reached(store, id) {
            let i = choose|i: int| 0 <= i < all.len() && all[i] == id;
            let at = lemma_steps_are_there(store, all, i);
            lemma_own_steps(store, id);
            let own = store[id].diffs();
            assert(steps.subrange(at, at + own.len())[0] == own[0]);
            assert(creates(steps[at], id));
        }
    }
}

/// If an object is made by the steps of a document, and one of its fields or
/// elements, in a map or in a list, holds an operation that links it to an object
/// of the store, shown or as a conflict, then that object is made too.
pub proof fn linked_objects_are_made(store: StoreView, from: ObjectIDView, to: ObjectIDView)
    requires
        store_wf(store),
        sound_store(store),
        made(store, from),
        store.contains_key(from),
        holds_link(store[from], to),
        store.contains_key(to),
    ensures
        made(store, to),
{
    lemma_made(store, from);
    lemma_made(store, to);
    steps_refer_to_held_links(store, from, to);
    let n = choose|n: nat| reached_in(store, from, n);
    assert(reached_in(store, from, (n + 1 - 1) as nat));
    assert(reached_in(store, to, n + 1));
}

/// No object is made by the steps of a document without cause: it is in the store,
/// and is the root, or another object that is made holds a link to it.
pub proof fn made_objects_are_linked(store: StoreView, id: ObjectIDView)
    requires
        store_wf(store),
        sound_store(store),
        made(store, id),
    ensures
        store.contains_key(id),
        id is Root || exists|from: ObjectIDView|
            store.contains_key(from) && #[trigger] made(store, from) && holds_link(store[from], id),
{
    lemma_made(store, id);
    if !(id is Root) {
        let n = choose|n: nat| reached_in(store, id, n);
        let from = choose|from: ObjectIDView|
            reached_in(store, from, (n - 1) as nat) && #[trigger] refers(store, from, id);
        steps_refer_to_held_links(store, from, id);
        assert(reached(store, from));
        lemma_made(store, from);
    }
}

/// Among the steps that make a document are all steps of each object that is made,
/// one right after the other.
pub proof fn made_objects_are_made_whole(store: StoreView, id: ObjectIDView) -> (at: int)
    requires
        store_wf(store),
        sound_store(store),
        made(store, id),
    ensures
        0 <= at,
        at + store[id].diffs().len() <= document_diffs(store).len(),
        document_diffs(store).subrange(at, at + store[id].diffs().len()) == store[id].diffs(),
{
    lemma_made(store, id);
    document_makes_what_is_reached(store, id);
    let all = document_visits(store);
    let i = choose|i: int| 0 <= i < all.len() && all[i] == id;
    lemma_steps_are_there(store, all, i)
}

/// Every step that makes a document is a step of an object that is made.
pub proof fn steps_are_of_made_objects(store: StoreView, j: int) -> (id: ObjectIDView)
    requires
        store_wf(store),
        sound_store(store),
        0 <= j < document_diffs(store).len(),
    ensures
        store.contains_key(id),
        made(store, id),
        store[id].diffs().contains(document_diffs(store)[j]),
{
    let all = document_visits(store);
    let (i, k) = lemma_step_of_one(store, all, j);
    assert(all.contains(all[i]));
    document_makes_what_is_reached(store, all[i]);
    lemma_made(store, all[i]);
    all[i]
}

} // verus!

//! What is delivered, reported and noted, one step at a time.

use vstd::prelude::*;

use crate::causal_laws::{lemma_last_is_next, lemma_new_change};
use crate::delivery::{
    counter_told, progress, redoing, redoing_one, simplified, told, OpSetView,
};
use crate::diff::{ActionView, DiffView, MapType};
use crate::error::ErrorView;
use crate::ids::{element_named, ElementIDView, ObjectIDView};
use crate::objects::{field_of, ObjectView, StoreView};
use crate::operation_laws::{ops_in, undo_is_noted};
use crate::protocol::{ChangeView, OperationView};
use crate::told_laws::works_on;

verus! {

/// Whether a step tells a client of an element of a list with the counter `n` or a
/// greater one: it inserts such an element, or gives the largest counter.
pub open spec fn tells(d: DiffView, list: ObjectIDView, n: u32) -> bool {
    match d.action {
        ActionView::MaxElem(id, k, _) => id == list && k >= n,
        ActionView::InsertSequenceElement(
            id,
            _,
            _,
            _,
            _,
            ElementIDView::SpecificElementID(_, k),
        ) => id == list && k >= n,
        _ => false,
    }
}

/// A step is left out of a report if and only if it gives the largest counter of a
/// list, and that is 0 or is told by a step after it. All others stay, in their
/// order.
pub proof fn step_is_left_out_if_a_later_one_tells_as_much(d: DiffView, later: Seq<DiffView>)
    ensures
        simplified(Seq::empty()).len() == 0,
        ({
            let left_out = d.action matches ActionView::MaxElem(list, n, _) && (n == 0
                || exists|j: int| 0 <= j < later.len() && tells(#[trigger] later[j], list, n));
            simplified(seq![d] + later) == if left_out {
                simplified(later)
            } else {
                seq![d] + simplified(later)
            }
        }),
{
    let all = seq![d] + later;
    assert(all.drop_first() =~= later);
    if let ActionView::MaxElem(list, n, _) = d.action {
        if n > 0 {
            assert(told(later, list, n) <==> exists|j: int|
                0 <= j < later.len() && tells(#[trigger] later[j], list, n)) by {
                if told(later, list, n) {
                    let j = choose|j: int|
                        0 <= j < later.len() && counter_told(#[trigger] later[j], list) >= n;
                    assert(tells(later[j], list, n));
                }
                if exists|j: int| 0 <= j < later.len() && tells(#[trigger] later[j], list, n) {
                    let j = choose|j: int|
                        0 <= j < later.len() && tells(#[trigger] later[j], list, n);
                    assert(counter_told(later[j], list) >= n);
                }
            }
        }
    }
}

/// A change that is ready and new, but of which an operation is refused, is put at
/// the end of the history, and what its operations before that one did stays. The
/// clock has not seen it, nothing takes it back, and nothing is reported but why
/// the operation was refused.
pub proof fn refused_change_stays_in_the_history(m: OpSetView, c: ChangeView, undoable: bool)
    requires
        m.delivered(),
        m.next_ready() is None,
        c.seq >= 1,
        m.ready(c),
        forall|j: int|
            0 <= j < m.states.history.len() ==> !((#[trigger] m.states.history[j]).actor == c.actor
                && m.states.history[j].seq == c.seq),
        progress(m.store, m.states.extended(c), c, c.ops).error is Some,
    ensures
        ({
            let p = progress(m.store, m.states.extended(c), c, c.ops);
            let (after, report) = m.receive(c, undoable);
            &&& report == Err::<Seq<DiffView>, ErrorView>(p.error->Some_0)
            &&& after.store == p.store
            &&& after.states.history == m.states.history.push(c)
            &&& after.clock == m.clock
            &&& after.queue == m.queue
            &&& after.undo_pos == m.undo_pos
            &&& after.undo_stack == m.undo_stack
            &&& after.redo_stack == m.redo_stack
        }),
{
    lemma_last_is_next(m, c, undoable);
    let q = m.queued(c, undoable);
    assert(q.queue[m.queue.len() as int] == (c, undoable));
    lemma_is_new(m, c);
}

/// What applying a change that is ready and new comes to, whatever else waits. What
/// its operations did stays, and it is put at the end of the history. If none of
/// them was refused, that is reported, without redundant steps, the clock has seen
/// the change, and what takes it back is put on the undo stack if it is to be
/// undoable. Otherwise only the error is reported.
pub proof fn ready_change_is_applied(m: OpSetView, c: ChangeView, undoable: bool)
    requires
        m.delivered(),
        c.seq >= 1,
        m.ready(c),
        forall|j: int|
            0 <= j < m.states.history.len() ==> !((#[trigger] m.states.history[j]).actor == c.actor
                && m.states.history[j].seq == c.seq),
    ensures
        ({
            let p = progress(m.store, m.states.extended(c), c, c.ops);
            let (after, report) = m.apply_ready(c, undoable);
            &&& after.store == p.store
            &&& after.states == m.states.extended(c)
            &&& after.states.history == m.states.history.push(c)
            &&& after.queue == m.queue
            &&& after.redo_stack == m.redo_stack
            &&& match p.error {
                None => {
                    &&& report == Ok::<Seq<DiffView>, ErrorView>(simplified(p.diffs))
                    &&& after.clock.get(c.actor) == c.seq
                    &&& forall|a: Seq<char>|
                        a != c.actor ==> #[trigger] after.clock.get(a) == m.clock.get(a)
                    &&& undoable ==> after.undo_stack == m.undo_stack.take(m.undo_pos as int).push(
                        p.undo,
                    ) && after.undo_pos == m.undo_pos + 1
                    &&& !undoable ==> after.undo_stack == m.undo_stack && after.undo_pos
                        == m.undo_pos
                },
                Some(e) => {
                    &&& report == Err::<Seq<DiffView>, ErrorView>(e)
                    &&& after.clock == m.clock
                    &&& after.undo_stack == m.undo_stack
                    &&& after.undo_pos == m.undo_pos
                },
            }
        }),
{
    lemma_is_new(m, c);
    lemma_new_change(m, c);
    assert(m.clock.get(c.actor) <= m.states.log(c.actor).len());
}

/// Applying a change that was applied before does nothing; applying another under
/// its number is refused, and does nothing either.
pub proof fn number_is_used_once(m: OpSetView, c: ChangeView, undoable: bool, j: int)
    requires
        m.delivered(),
        0 <= j < m.states.history.len(),
        m.states.history[j].actor == c.actor,
        m.states.history[j].seq == c.seq,
    ensures
        m.states.history[j] == c ==> m.apply_ready(c, undoable) == (
            m,
            Ok::<Seq<DiffView>, ErrorView>(Seq::empty()),
        ),
        m.states.history[j] != c ==> m.apply_ready(c, undoable) == (
            m,
            Err::<Seq<DiffView>, ErrorView>(
                ErrorView::InvalidChange("Invalid reuse of sequence number for actor"@),
            ),
        ),
{
    let d = m.states.history[j];
    assert(m.states.applied(d.actor, d.seq) is Some);
}

/// A change under a number that its actor has not used is not applied yet.
proof fn lemma_is_new(m: OpSetView, c: ChangeView)
    requires
        m.delivered(),
        forall|j: int|
            0 <= j < m.states.history.len() ==> !((#[trigger] m.states.history[j]).actor == c.actor
                && m.states.history[j].seq == c.seq),
    ensures
        m.states.applied(c.actor, c.seq) is None,
{
    if m.states.applied(c.actor, c.seq) is Some {
        let d = m.states.applied(c.actor, c.seq)->Some_0.change;
        assert(m.states.history.contains(d));
        let j = choose|j: int| 0 <= j < m.states.history.len() && m.states.history[j] == d;
        assert(m.states.history[j].actor == c.actor);
    }
}

/// Where several changes of the queue are ready, the one that came first is applied
/// first, with the flag that it came with; what it reports comes before what the
/// others report.
pub proof fn change_that_came_first_is_applied_first(m: OpSetView, i: int)
    requires
        0 <= i < m.queue.len(),
        m.ready(m.queue[i].0),
        forall|j: int| 0 <= j < i ==> !m.ready((#[trigger] m.queue[j]).0),
    ensures
        ({
            let rest = OpSetView { queue: m.queue.take(i) + m.queue.skip(i + 1), ..m };
            let (one, first) = rest.apply_ready(m.queue[i].0, m.queue[i].1);
            let (last, report) = m.run();
            &&& first is Err ==> last == one && report == first
            &&& first is Ok ==> last == one.run().0
            &&& first is Ok ==> match one.run().1 {
                Ok(others) => report == Ok::<Seq<DiffView>, ErrorView>(first->Ok_0 + others),
                Err(e) => report == Err::<Seq<DiffView>, ErrorView>(e),
            }
        }),
{
    assert(m.first_ready(i));
    assert forall|j: int| m.first_ready(j) implies j == i by {
        if j < i {
            assert(!m.ready(m.queue[j].0));
        } else if j > i {
            assert(!m.ready(m.queue[i].0));
        }
    }
    assert(m.next_ready() == Some(i));
    assert(m.queue.remove(i) =~= m.queue.take(i) + m.queue.skip(i + 1));
}

/// Where no change of the queue is ready, nothing is done.
pub proof fn nothing_is_done_where_no_change_is_ready(m: OpSetView)
    requires
        forall|j: int| 0 <= j < m.queue.len() ==> !m.ready((#[trigger] m.queue[j]).0),
    ensures
        m.run() == (m, Ok::<Seq<DiffView>, ErrorView>(Seq::empty())),
{
    assert forall|j: int| !m.first_ready(j) by {}
}

/// Whether operations came for a field of an object in a store.
pub open spec fn came_for(store: StoreView, id: ObjectIDView, key: Seq<char>) -> bool {
    store.contains_key(id) && match store[id] {
        ObjectView::MapObject(m) => m.ops.contains_key(key),
        ObjectView::List(l) => element_named(key) matches Some(e) && l.ops.contains_key(e),
    }
}

/// What is held in a field is found if and only if operations came for the field.
pub proof fn fields_are_found(store: StoreView, id: ObjectIDView, key: Seq<char>)
    ensures
        field_of(store, id, key) is Some <==> came_for(store, id, key),
        field_of(store, id, key) matches Some(field) ==> field == ops_in(store[id], key),
{
}

/// What a redo is to bring back is noted for one undo operation after the other:
/// for an increment, one that adds up with it to nothing; or else all that the
/// field holds, in its order, or its deletion if it holds nothing. Nothing is noted
/// for a field for which no operation came.
pub proof fn redo_is_noted_for_each_undo_operation(
    store: StoreView,
    ops: Seq<OperationView>,
    op: OperationView,
    id: ObjectIDView,
    key: Seq<char>,
)
    requires
        works_on(op, id, key),
    ensures
        redoing(store, Seq::empty()).len() == 0,
        ({
            let before = redoing(store, ops);
            let after = redoing(store, ops.push(op));
            let one = after.skip(before.len() as int);
            &&& before.len() <= after.len()
            &&& after.take(before.len() as int) == before
            &&& op is Increment || came_for(store, id, key) ==> undo_is_noted(
                ops_in(store[id], key),
                op,
                id,
                key,
                one,
            )
            &&& !(op is Increment) && !came_for(store, id, key) ==> one.len() == 0
        }),
{
    let all = ops.push(op);
    assert(all.drop_last() =~= ops);
    assert(all.last() == op);
    let before = redoing(store, ops);
    let after = redoing(store, all);
    let one = redoing_one(store, op);
    assert(after == before + one);
    assert(after.take(before.len() as int) =~= before);
    assert(after.skip(before.len() as int) =~= one);
}

/// Nothing is noted for a redo of operations that work on no field.
pub proof fn redo_is_noted_for_fields_only(
    store: StoreView,
    ops: Seq<OperationView>,
    op: OperationView,
)
    requires
        forall|id: ObjectIDView, key: Seq<char>| !#[trigger] works_on(op, id, key),
    ensures
        redoing(store, ops.push(op)) == redoing(store, ops),
{
    let all = ops.push(op);
    assert(all.drop_last() =~= ops);
    assert(all.last() == op);
    assert(!works_on(op, op.object(), op.field()));
    assert(redoing(store, ops) + Seq::empty() =~= redoing(store, ops));
}

/// The document in which nothing came yet is an empty root, which is a plain map.
/// Nothing waits, nothing was seen, and nothing can be undone or redone.
pub proof fn document_is_an_empty_root_at_first()
    ensures
        ({
            let m = OpSetView::init();
            &&& m.store.dom() == Set::empty().insert(ObjectIDView::Root)
            &&& m.store[ObjectIDView::Root] matches ObjectView::MapObject(root) && {
                &&& root.map_type == MapType::PlainMap
                &&& root.object_id == ObjectIDView::Root
                &&& root.ops.dom() == Set::<Seq<char>>::empty()
                &&& root.keys.len() == 0
            }
            &&& m.queue.len() == 0
            &&& forall|a: Seq<char>| #[trigger] m.clock.get(a) == 0
            &&& m.undo_pos == 0
            &&& m.undo_stack.len() == 0
            &&& m.redo_stack.len() == 0
            &&& m.states.history.len() == 0
        }),
{
    let m = OpSetView::init();
    assert(m.store.dom() =~= Set::empty().insert(ObjectIDView::Root));
}

/// An undoable change waits if and only if one came that waits: one that is put into
/// the queue counts if it is to be undoable.
pub proof fn undoable_change_counts_while_it_waits(m: OpSetView, c: ChangeView)
    ensures
        m.queue.len() == 0 ==> !m.waits_undoable(),
        (OpSetView { queue: m.queue.push((c, true)), ..m }).waits_undoable(),
        (OpSetView { queue: m.queue.push((c, false)), ..m }).waits_undoable() <==> m.waits_undoable(),
{
    let n = m.queue.len() as int;
    let q = OpSetView { queue: m.queue.push((c, true)), ..m };
    assert(q.queue[n].1);
    let r = OpSetView { queue: m.queue.push((c, false)), ..m };
    if r.waits_undoable() {
        let i = choose|i: int| 0 <= i < r.queue.len() && (#[trigger] r.queue[i]).1;
        assert(m.queue[i] == r.queue[i]);
    }
    if m.waits_undoable() {
        let i = choose|i: int| 0 <= i < m.queue.len() && (#[trigger] m.queue[i]).1;
        assert(r.queue[i] == m.queue[i]);
    }
}

} // verus!

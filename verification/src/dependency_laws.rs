//! What clocks, dependencies and readiness mean.

use std::cmp::Ordering;

use vstd::prelude::*;
use vstd::std_specs::cmp::PartialOrdSpec;

use crate::actor_states::StatesView;
use crate::causal_laws::{
    lemma_all_deps, lemma_extended_keeps, lemma_last_is_next, lemma_new_change, lemma_waits, listed,
};
use crate::clock::{Clock, ClockView};
use crate::delivery::{needed, progress, simplified, OpSetView};
use crate::diff::DiffView;
use crate::error::ErrorView;
use crate::ids::ObjectIDView;
use crate::objects::{applied_op, StoreView};
use crate::protocol::{ChangeView, OpView, OperationView};
use crate::seqs::{lemma_filter_holds, lemma_filter_pair};
use crate::sync_laws::lemma_needed;

verus! {

/// What clocks have seen: nothing at first; the change `n` of an actor, and all
/// before it, once it was noted; what either of two has seen, if they are united.
pub proof fn clocks_note_what_was_seen(c: ClockView, d: ClockView, actor: Seq<char>, n: u32)
    ensures
        forall|a: Seq<char>| #[trigger] ClockView::none().get(a) == 0,
        c.with(actor, n).get(actor) >= n,
        c.with(actor, n).get(actor) >= c.get(actor),
        c.with(actor, n).get(actor) == n || c.with(actor, n).get(actor) == c.get(actor),
        forall|a: Seq<char>| a != actor ==> #[trigger] c.with(actor, n).get(a) == c.get(a),
        forall|a: Seq<char>|
            {
                let u = #[trigger] c.union(d).get(a);
                u >= c.get(a) && u >= d.get(a) && (u == c.get(a) || u == d.get(a))
            },
{
}

/// One clock is no later than another if the other has seen as much of every actor.
pub proof fn clocks_are_compared_actor_by_actor(c: Clock, d: Clock)
    ensures
        ({
            let le = forall|a: Seq<char>| #[trigger] c.deep_view().get(a) <= d.deep_view().get(a);
            let ge = forall|a: Seq<char>| #[trigger] d.deep_view().get(a) <= c.deep_view().get(a);
            &&& c.partial_cmp_spec(&d) == Some(Ordering::Equal) <==> le && ge
            &&& c.partial_cmp_spec(&d) == Some(Ordering::Less) <==> le && !ge
            &&& c.partial_cmp_spec(&d) == Some(Ordering::Greater) <==> ge && !le
            &&& c.partial_cmp_spec(&d) == None::<Ordering> <==> !le && !ge
        }),
{
    if forall|a: Seq<char>| #[trigger] c.deep_view().get(a) <= d.deep_view().get(a) {
        assert(c.deep_view().within(d.deep_view()));
    }
    if forall|a: Seq<char>| #[trigger] d.deep_view().get(a) <= c.deep_view().get(a) {
        assert(d.deep_view().within(c.deep_view()));
    }
}

/// A change is ready if and only if all changes of its dependencies, and all changes
/// of its own actor before it, were seen.
pub proof fn change_is_ready_when_all_it_depends_on_was_seen(m: OpSetView, c: ChangeView)
    requires
        c.seq >= 1,
    ensures
        m.ready(c) <==> (forall|a: Seq<char>| #[trigger] c.deps.get(a) <= m.clock.get(a)) && c.seq
            - 1 <= m.clock.get(c.actor),
{
    if m.ready(c) {
        assert forall|a: Seq<char>| #[trigger] c.deps.get(a) <= m.clock.get(a) by {
            assert(c.needs().get(a) <= m.clock.get(a));
        }
        assert(c.needs().get(c.actor) <= m.clock.get(c.actor));
    }
    if (forall|a: Seq<char>| #[trigger] c.deps.get(a) <= m.clock.get(a)) && c.seq - 1
        <= m.clock.get(c.actor) {
        assert forall|a: Seq<char>| #[trigger] c.needs().get(a) <= m.clock.get(a) by {
            assert(c.deps.get(a) <= m.clock.get(a));
        }
    }
}

/// A change that comes in while something that it depends on was not seen waits:
/// nothing is applied, and nothing is reported.
pub proof fn change_waits_for_what_was_not_seen(
    m: OpSetView,
    c: ChangeView,
    undoable: bool,
    a: Seq<char>,
)
    requires
        c.seq >= 1,
        m.next_ready() is None,
        c.deps.get(a) > m.clock.get(a) || (a == c.actor && c.seq - 1 > m.clock.get(a)),
    ensures
        m.receive(c, undoable).1 == Ok::<Seq<DiffView>, ErrorView>(Seq::empty()),
        m.receive(c, undoable).0.store == m.store,
        m.receive(c, undoable).0.clock == m.clock,
        m.receive(c, undoable).0.states == m.states,
        m.receive(c, undoable).0.undo_pos == m.undo_pos,
        m.receive(c, undoable).0.undo_stack == m.undo_stack,
        m.receive(c, undoable).0.redo_stack == m.redo_stack,
        m.receive(c, undoable).0.queue == m.queue.push((c, undoable)),
{
    change_is_ready_when_all_it_depends_on_was_seen(m, c);
    lemma_waits(m, c, undoable);
}

/// The history is in causal order: before each change stand all changes of its
/// dependencies, and all changes of its own actor that come before it.
pub proof fn history_is_in_causal_order(m: OpSetView, i: int, a: Seq<char>, n: u32) -> (j: int)
    requires
        m.delivered(),
        0 <= i < m.states.history.len(),
        1 <= n,
        n <= m.states.history[i].deps.get(a) || (a == m.states.history[i].actor && n
            < m.states.history[i].seq),
    ensures
        0 <= j < i,
        m.states.history[j].actor == a,
        m.states.history[j].seq == n,
{
    let h = m.states.history;
    assert(m.states.applied(h[i].actor, h[i].seq) is Some);
    assert(n <= h[i].needs().get(a));
    assert(listed(h.take(i), a, n));
    let before = h.take(i);
    let j = choose|j: int|
        0 <= j < before.len() && (#[trigger] before[j]).actor == a && before[j].seq == n;
    assert(h[j] == before[j]);
    j
}

/// As long as nothing was refused, the clock has seen exactly the changes of the
/// history.
pub proof fn clock_has_seen_the_history(m: OpSetView, a: Seq<char>, n: u32)
    requires
        m.delivered(),
        m.complete(),
        n >= 1,
    ensures
        n <= m.clock.get(a) <==> exists|j: int|
            0 <= j < m.states.history.len() && (#[trigger] m.states.history[j]).actor == a
                && m.states.history[j].seq == n,
{
    let h = m.states.history;
    assert(m.clock.get(a) == m.states.log(a).len());
    if n <= m.clock.get(a) {
        assert(m.states.applied(a, n) is Some);
        let c = m.states.applied(a, n)->Some_0.change;
        assert(h.contains(c));
        let j = choose|j: int| 0 <= j < h.len() && h[j] == c;
        assert(h[j].actor == a && h[j].seq == n);
    }
    if exists|j: int|
        0 <= j < h.len() && (#[trigger] h[j]).actor == a && h[j].seq == n {
        let j = choose|j: int| 0 <= j < h.len() && (#[trigger] h[j]).actor == a && h[j].seq == n;
        assert(m.states.applied(h[j].actor, h[j].seq) is Some);
    }
}

/// A change builds on the changes of its dependencies and on those of its own actor
/// before it; on all that the last of these of each actor build on; and on nothing
/// else.
pub proof fn change_builds_on_what_its_dependencies_build_on(
    s: StatesView,
    c: ChangeView,
    a: Seq<char>,
    n: u32,
)
    requires
        c.seq == s.log(c.actor).len() + 1,
        c.deps.get(c.actor) < c.seq,
        n >= 1,
    ensures
        n <= s.extended(c).deps_of(c.actor, c.seq).get(a) <==> {
            ||| n <= c.deps.get(a)
            ||| a == c.actor && n < c.seq
            ||| n <= s.deps_of(c.actor, (c.seq - 1) as u32).get(a)
            ||| exists|b: Seq<char>|
                b != c.actor && n <= #[trigger] s.deps_of(b, c.deps.get(b)).get(a)
        },
        forall|b: Seq<char>, k: u32|
            (#[trigger] s.applied(b, k)) is Some ==> s.extended(c).deps_of(b, k) == s.deps_of(b, k),
{
    lemma_extended_keeps(s, c);
    lemma_all_deps(s, c.needs(), a);
    let t = s.extended(c);
    let all = s.all_deps(c.needs()).get(a);
    assert(t.applied(c.actor, c.seq) is Some);
    assert(t.deps_of(c.actor, c.seq).get(a) == all);
    assert(c.needs().get(c.actor) == c.seq - 1);
    if n <= all {
        assert(s.reaches(c.needs(), a, all));
        if all > c.needs().get(a) {
            let b = choose|b: Seq<char>| all <= #[trigger] s.deps_of(b, c.needs().get(b)).get(a);
            if b != c.actor {
                assert(c.needs().get(b) == c.deps.get(b));
                assert(n <= s.deps_of(b, c.deps.get(b)).get(a));
            }
        }
    }
    if n <= s.deps_of(c.actor, (c.seq - 1) as u32).get(a) {
        assert(n <= s.deps_of(c.actor, c.needs().get(c.actor)).get(a));
        assert(s.reaches(c.needs(), a, n));
    }
    if exists|b: Seq<char>| b != c.actor && n <= #[trigger] s.deps_of(b, c.deps.get(b)).get(a) {
        let b = choose|b: Seq<char>|
            b != c.actor && n <= #[trigger] s.deps_of(b, c.deps.get(b)).get(a);
        assert(c.needs().get(b) == c.deps.get(b));
        assert(n <= s.deps_of(b, c.needs().get(b)).get(a));
        assert(s.reaches(c.needs(), a, n));
    }
    if n <= c.deps.get(a) || (a == c.actor && n < c.seq) {
        assert(n <= c.needs().get(a));
    }
}

/// Where nothing was applied, nothing builds on anything.
pub proof fn nothing_builds_on_anything_at_first(a: Seq<char>, n: u32, b: Seq<char>)
    ensures
        StatesView::none().deps_of(a, n).get(b) == 0,
        StatesView::none().history.len() == 0,
{
}

/// A change that is ready, under a number that its actor has used for another
/// change, is refused. Nothing is applied.
pub proof fn reused_number_is_refused(m: OpSetView, c: ChangeView, undoable: bool, j: int)
    requires
        m.delivered(),
        m.next_ready() is None,
        c.seq >= 1,
        m.ready(c),
        0 <= j < m.states.history.len(),
        m.states.history[j].actor == c.actor,
        m.states.history[j].seq == c.seq,
        m.states.history[j] != c,
    ensures
        m.receive(c, undoable) == (
            m,
            Err::<Seq<DiffView>, ErrorView>(
                ErrorView::InvalidChange("Invalid reuse of sequence number for actor"@),
            ),
        ),
{
    lemma_last_is_next(m, c, undoable);
    let q = m.queued(c, undoable);
    assert(q.queue[m.queue.len() as int] == (c, undoable));
    let d = m.states.history[j];
    assert(m.states.applied(d.actor, d.seq) is Some);
}

/// Whether an operation makes the object `id`.
pub open spec fn makes(op: OperationView, id: ObjectIDView) -> bool {
    match op {
        OperationView::MakeMap { object_id } => object_id == id,
        OperationView::MakeTable { object_id } => object_id == id,
        OperationView::MakeList { object_id } => object_id == id,
        OperationView::MakeText { object_id } => object_id == id,
        _ => false,
    }
}

/// Whether one of a list of operations makes the object `id`.
pub open spec fn made_among(ops: Seq<OperationView>, id: ObjectIDView) -> bool {
    exists|i: int| 0 <= i < ops.len() && makes(#[trigger] ops[i], id)
}

/// The operations of a change are applied one after the other: each to what those
/// before it made of the document. What each reports comes after what those before
/// it reported. What takes it back is noted after what takes those before it back,
/// unless the object that it is on was made by it or by one before it. After one
/// that is refused none is applied.
pub proof fn operations_are_applied_one_after_the_other(
    store: StoreView,
    s: StatesView,
    c: ChangeView,
    ops: Seq<OperationView>,
    op: OperationView,
)
    ensures
        ({
            let none = progress(store, s, c, Seq::empty());
            let before = progress(store, s, c, ops);
            let after = progress(store, s, c, ops.push(op));
            let signed = OpView { seq: c.seq, actor: c.actor, op };
            &&& none.store == store && none.error is None && none.diffs.len() == 0
                && none.undo.len() == 0
            &&& before.error is Some ==> after == before
            &&& before.error is None ==> match applied_op(before.store, s, signed) {
                Err(e) => after.error == Some(e) && after.store == before.store,
                Ok((next, report, undo)) => {
                    &&& after.error is None
                    &&& after.store == next
                    &&& report is None ==> after.diffs == before.diffs
                    &&& report matches Some(d) ==> after.diffs == before.diffs.push(d)
                    &&& made_among(ops.push(op), op.object()) ==> after.undo == before.undo
                    &&& !made_among(ops.push(op), op.object()) ==> after.undo == before.undo + undo
                },
            }
        }),
{
    let all = ops.push(op);
    assert(all.drop_last() =~= ops);
    assert(all.last() == op);
    let before = progress(store, s, c, ops);
    if before.error is None {
        lemma_made_among(store, s, c, ops);
        let after = progress(store, s, c, all);
        let made = if op.makes() {
            before.made.insert(op.object())
        } else {
            before.made
        };
        assert(after.made == made || after.error is Some);
        assert(made.contains(op.object()) <==> made_among(all, op.object())) by {
            if made_among(all, op.object()) {
                let i = choose|i: int| 0 <= i < all.len() && makes(#[trigger] all[i], op.object());
                if i < ops.len() {
                    assert(makes(ops[i], op.object()));
                }
            }
            if before.made.contains(op.object()) {
                let i = choose|i: int| 0 <= i < ops.len() && makes(#[trigger] ops[i], op.object());
                assert(makes(all[i], op.object()));
            }
            if op.makes() {
                assert(makes(all[ops.len() as int], op.object()));
            }
        }
    }
}

proof fn lemma_made_among(
    store: StoreView,
    s: StatesView,
    c: ChangeView,
    ops: Seq<OperationView>,
)
    requires
        progress(store, s, c, ops).error is None,
    ensures
        forall|id: ObjectIDView| #[trigger]
            progress(store, s, c, ops).made.contains(id) <==> made_among(ops, id),
    decreases ops.len(),
{
    if ops.len() > 0 {
        let rest = ops.drop_last();
        let op = ops.last();
        lemma_made_among(store, s, c, rest);
        let p = progress(store, s, c, rest);
        let next = progress(store, s, c, ops);
        assert forall|id: ObjectIDView| #[trigger]
            next.made.contains(id) <==> made_among(ops, id) by {
            assert(p.made.contains(id) <==> made_among(rest, id));
            if made_among(rest, id) {
                let i = choose|i: int| 0 <= i < rest.len() && makes(#[trigger] rest[i], id);
                assert(makes(ops[i], id));
            }
            if op.makes() && op.object() == id {
                assert(makes(ops[ops.len() - 1], id));
            }
            if made_among(ops, id) {
                let i = choose|i: int| 0 <= i < ops.len() && makes(#[trigger] ops[i], id);
                if i < rest.len() {
                    assert(makes(rest[i], id));
                }
            }
        }
    }
}

/// What a change does that is ready and new, where no other waits: its operations are
/// applied, what they did is reported, without redundant steps, it is put at the end of the history, and the clock has
/// seen it. What is to take it back is put on the undo stack in place of what was
/// undone, if it is to be undoable, and on no account otherwise.
pub proof fn new_change_is_applied(m: OpSetView, c: ChangeView, undoable: bool)
    requires
        m.delivered(),
        m.queue.len() == 0,
        c.seq >= 1,
        m.ready(c),
        forall|j: int|
            0 <= j < m.states.history.len() ==> !((#[trigger] m.states.history[j]).actor == c.actor
                && m.states.history[j].seq == c.seq),
        progress(m.store, m.states.extended(c), c, c.ops).error is None,
    ensures
        ({
            let after = m.receive(c, undoable).0;
            let p = progress(m.store, m.states.extended(c), c, c.ops);
            &&& m.receive(c, undoable).1 == Ok::<Seq<DiffView>, ErrorView>(simplified(p.diffs))
            &&& after.store == p.store
            &&& after.states.history == m.states.history.push(c)
            &&& after.clock.get(c.actor) == c.seq
            &&& forall|a: Seq<char>|
                a != c.actor ==> #[trigger] after.clock.get(a) == m.clock.get(a)
            &&& after.queue.len() == 0
            &&& after.redo_stack == m.redo_stack
            &&& !undoable ==> after.undo_stack == m.undo_stack && after.undo_pos == m.undo_pos
            &&& undoable ==> after.undo_stack == m.undo_stack.take(m.undo_pos as int).push(p.undo)
                && after.undo_pos == m.undo_pos + 1
        }),
{
    assert(m.next_ready() is None);
    lemma_last_is_next(m, c, undoable);
    let q = m.queued(c, undoable);
    assert(q.queue[0] == (c, undoable));
    assert(m.states.applied(c.actor, c.seq) is None) by {
        if m.states.applied(c.actor, c.seq) is Some {
            let d = m.states.applied(c.actor, c.seq)->Some_0.change;
            assert(m.states.history.contains(d));
            let j = choose|j: int|
                0 <= j < m.states.history.len() && m.states.history[j] == d;
            assert(m.states.history[j].actor == c.actor);
        }
    }
    lemma_new_change(m, c);
    let next = m.apply_ready(c, undoable).0;
    assert(next.queue == m.queue);
    assert(next.next_ready() is None);
    assert(next.run() == (next, Ok::<Seq<DiffView>, ErrorView>(Seq::empty())));
    let report = simplified(progress(m.store, m.states.extended(c), c, c.ops).diffs);
    assert(report + Seq::empty() =~= report);
    assert(m.clock.get(c.actor) <= m.states.log(c.actor).len());
}

/// The changes that one misses who has seen `since` are those of the history with a
/// number greater than the one seen of their actor, in the order of the history.
pub proof fn missing_changes_are_those_not_seen(m: OpSetView, since: ClockView)
    ensures
        forall|c: ChangeView| #[trigger]
            m.missing_changes(since).contains(c) <==> m.states.history.contains(c) && c.seq
                > since.get(c.actor),
        forall|i: int, j: int|
            0 <= i < j < m.missing_changes(since).len() ==> #[trigger] come_in_order(
                m.states.history,
                m.missing_changes(since)[i],
                m.missing_changes(since)[j],
            ),
{
    let h = m.states.history;
    let p = |c: ChangeView| c.seq > since.get(c.actor);
    lemma_filter_holds(h, p);
    let missing = m.missing_changes(since);
    assert forall|i: int, j: int| 0 <= i < j < missing.len() implies #[trigger] come_in_order(
        h,
        missing[i],
        missing[j],
    ) by {
        let (a, b) = lemma_filter_pair(h, p, i, j);
        assert(h[a] == missing[i] && h[b] == missing[j]);
    }
}

/// Whether two changes stand in a list in this order.
pub open spec fn come_in_order(h: Seq<ChangeView>, c: ChangeView, d: ChangeView) -> bool {
    exists|a: int, b: int| 0 <= a < b < h.len() && #[trigger] h[a] == c && #[trigger] h[b] == d
}

/// What is missing is, for each actor, the most that a waiting change depends on, or
/// that comes before a waiting change of the actor itself; and nothing if there is
/// no such change.
pub proof fn missing_dependencies_are_those_of_waiting_changes(m: OpSetView, a: Seq<char>)
    requires
        m.numbered(),
    ensures
        forall|i: int|
            0 <= i < m.queue.len() ==> (#[trigger] m.queue[i]).0.deps.get(a)
                <= m.missing_deps().get(a),
        forall|i: int|
            0 <= i < m.queue.len() && (#[trigger] m.queue[i]).0.actor == a ==> m.queue[i].0.seq - 1
                <= m.missing_deps().get(a),
        m.missing_deps().get(a) == 0 || exists|i: int|
            0 <= i < m.queue.len() && ((#[trigger] m.queue[i]).0.deps.get(a)
                == m.missing_deps().get(a) || (m.queue[i].0.actor == a && m.queue[i].0.seq - 1
                == m.missing_deps().get(a))),
{
    let w = m.waiting();
    lemma_needed(w);
    assert forall|i: int| 0 <= i < m.queue.len() implies {
        let c = (#[trigger] m.queue[i]).0;
        c.deps.get(a) <= m.missing_deps().get(a) && (c.actor == a ==> c.seq - 1
            <= m.missing_deps().get(a))
    } by {
        assert(w[i].needs().within(needed(w)));
        assert(w[i].needs().get(a) <= needed(w).get(a));
    }
    if m.missing_deps().get(a) > 0 {
        let i = choose|i: int|
            0 <= i < w.len() && (#[trigger] w[i]).needs().get(a) == needed(w).get(a);
        assert(m.queue[i].0 == w[i]);
    }
}

} // verus!

//! What holds of replicas to which the same changes came in different orders.

use vstd::prelude::*;
use vstd::seq_lib::group_to_multiset_ensures;

use crate::causal_laws::{
    in_causal_order, lemma_apply_ready_delivered, lemma_queued_delivered, lemma_run_delivered,
    lemma_some_first_ready, lemma_taken_out, listed, nothing_is_out_of_order_at_first,
};
use crate::clock::lemma_clock_equal;
use crate::convergence_laws::{
    compatible, document_is_made_by_its_history, replicas_converge, same_changes, same_document,
};
use crate::delivery::{needed, OpSetView};
use crate::protocol::ChangeView;
use crate::sync_laws::lemma_needed;

verus! {

/// The changes of a list in which each stands with whether it is to be undoable.
pub open spec fn changes_of(arrivals: Seq<(ChangeView, bool)>) -> Seq<ChangeView> {
    arrivals.map_values(|e: (ChangeView, bool)| e.0)
}

/// The operation set after changes came in, one after the other, where at first
/// there was nothing; `None` if one of them was refused.
pub open spec fn after_arrivals(arrivals: Seq<(ChangeView, bool)>) -> Option<OpSetView>
    decreases arrivals.len(),
{
    if arrivals.len() == 0 {
        Some(OpSetView::init())
    } else {
        match after_arrivals(arrivals.drop_last()) {
            None => None,
            Some(m) => {
                let (c, undoable) = arrivals.last();
                match m.receive(c, undoable) {
                    (after, Ok(_)) => Some(after),
                    _ => None,
                }
            },
        }
    }
}

/// How often a change waits.
spec fn times_waiting(m: OpSetView, c: ChangeView) -> nat {
    m.waiting().to_multiset().count(c)
}

/// A run applies changes that waited; the others wait as often as before.
proof fn lemma_run_accounts(m: OpSetView)
    requires
        m.delivered(),
        m.clock.canonical(),
        m.run().1 is Ok,
    ensures
        ({
            let after = m.run().0;
            &&& forall|x: ChangeView| #[trigger]
                after.states.history.contains(x) ==> m.states.history.contains(x)
                    || m.waiting().contains(x)
            &&& forall|x: ChangeView|
                !after.states.history.contains(x) ==> #[trigger] times_waiting(after, x)
                    == times_waiting(m, x)
            &&& after.clock.canonical()
        }),
    decreases m.queue.len(),
{
    broadcast use group_to_multiset_ensures;

    if let Some(i) = m.next_ready() {
        assert(m.first_ready(i));
        let (c, undoable) = m.queue[i];
        let w = m.without(i);
        lemma_taken_out(m, i);
        lemma_apply_ready_delivered(w, c, undoable);
        let next = w.apply_ready(c, undoable).0;
        let after = m.run().0;
        assert(next.clock.canonical());
        lemma_run_accounts(next);
        lemma_run_delivered(next);
        assert(m.waiting()[i] == c);
        assert(next.waiting() =~= m.waiting().remove(i));
        assert(next.states.history.contains(c)) by {
            if let Ok(Some(t)) = w.states.add_change(c) {
                assert(t.history[m.states.history.len() as int] == c);
            }
        }
        assert forall|x: ChangeView| next.states.history.contains(x) implies #[trigger]
            after.states.history.contains(x) by {
            let j = choose|j: int| 0 <= j < next.states.history.len() && next.states.history[j] == x;
            assert(after.states.history.take(next.states.history.len() as int)[j] == x);
            assert(after.states.history[j] == x);
        }
        assert forall|x: ChangeView| #[trigger]
            after.states.history.contains(x) implies m.states.history.contains(x)
            || m.waiting().contains(x) by {
            if next.states.history.contains(x) {
                let j = choose|j: int|
                    0 <= j < next.states.history.len() && next.states.history[j] == x;
                if j < m.states.history.len() {
                    assert(m.states.history[j] == x);
                }
            } else {
                let j = choose|j: int| 0 <= j < next.waiting().len() && next.waiting()[j] == x;
                let k = if j < i {
                    j
                } else {
                    j + 1
                };
                assert(m.waiting()[k] == x);
            }
        }
        assert forall|x: ChangeView| !after.states.history.contains(x) implies #[trigger]
            times_waiting(after, x) == times_waiting(m, x) by {
            assert(x != c);
            assert(times_waiting(next, x) == times_waiting(m, x));
        }
    }
}

/// What holds after changes came in: each that came was applied, or waits as
/// often as it came.
spec fn accounted(m: OpSetView, came: Seq<ChangeView>) -> bool {
    &&& m.delivered()
    &&& m.complete()
    &&& m.replays()
    &&& m.next_ready() is None
    &&& m.clock.canonical()
    &&& forall|x: ChangeView| #[trigger] m.states.history.contains(x) ==> came.contains(x)
    &&& forall|x: ChangeView| #[trigger]
        times_waiting(m, x) == if m.states.history.contains(x) {
            0
        } else {
            came.to_multiset().count(x)
        }
}

proof fn lemma_accounted(arrivals: Seq<(ChangeView, bool)>)
    requires
        after_arrivals(arrivals) is Some,
        forall|i: int| 0 <= i < arrivals.len() ==> (#[trigger] arrivals[i]).0.seq >= 1,
    ensures
        accounted(after_arrivals(arrivals)->Some_0, changes_of(arrivals)),
    decreases arrivals.len(),
{
    broadcast use group_to_multiset_ensures;

    let came = changes_of(arrivals);
    if arrivals.len() == 0 {
        nothing_is_out_of_order_at_first();
        assert(came =~= Seq::<ChangeView>::empty());
        assert(OpSetView::init().waiting() =~= Seq::<ChangeView>::empty());
    } else {
        let rest = arrivals.drop_last();
        let (c, undoable) = arrivals.last();
        assert(arrivals[arrivals.len() - 1].0.seq >= 1);
        assert forall|i: int| 0 <= i < rest.len() implies (#[trigger] rest[i]).0.seq >= 1 by {
            assert(arrivals[i].0.seq >= 1);
        }
        lemma_accounted(rest);
        let m = after_arrivals(rest)->Some_0;
        assert(came =~= changes_of(rest).push(c));
        lemma_received(m, changes_of(rest), c, undoable);
    }
}

proof fn lemma_received(m: OpSetView, came: Seq<ChangeView>, c: ChangeView, undoable: bool)
    requires
        accounted(m, came),
        c.seq >= 1,
        m.receive(c, undoable).1 is Ok,
    ensures
        accounted(m.receive(c, undoable).0, came.push(c)),
{
    broadcast use group_to_multiset_ensures;

    let q = m.queued(c, undoable);
    let after = q.run().0;
    let all = came.push(c);
    lemma_queued_delivered(m, c, undoable);
    assert(q.complete()) by {
        assert forall|a: Seq<char>| #[trigger] q.clock.get(a) == q.states.log(a).len() by {
            assert(m.clock.get(a) == m.states.log(a).len());
        }
    }
    lemma_run_delivered(q);
    lemma_run_accounts(q);
    document_is_made_by_its_history(m, c, undoable);
    assert(q.waiting() =~= m.waiting().push(c));
    assert forall|x: ChangeView| #[trigger] after.states.history.contains(x) implies all.contains(
        x,
    ) by {
        if m.states.history.contains(x) {
            let i = choose|i: int| 0 <= i < came.len() && came[i] == x;
            assert(all[i] == x);
        } else {
            assert(q.waiting().contains(x));
            let i = choose|i: int| 0 <= i < q.waiting().len() && q.waiting()[i] == x;
            if i < m.waiting().len() {
                assert(m.waiting()[i] == x);
                assert(times_waiting(m, x) > 0);
                assert(came.to_multiset().count(x) > 0);
            }
            assert(all.to_multiset().count(x) > 0);
        }
    }
    assert forall|x: ChangeView| #[trigger] times_waiting(after, x) == if after.states.history.contains(
        x,
    ) {
        0
    } else {
        all.to_multiset().count(x)
    } by {
        if after.states.history.contains(x) {
            if times_waiting(after, x) > 0 {
                assert(after.waiting().contains(x));
                let i = choose|i: int| 0 <= i < after.waiting().len() && after.waiting()[i] == x;
                let j = choose|j: int|
                    0 <= j < after.states.history.len() && after.states.history[j] == x;
                assert(after.ready(after.states.history[j]));
                lemma_some_first_ready(after, i);
            }
        } else {
            assert(!m.states.history.contains(x)) by {
                if m.states.history.contains(x) {
                    let n = m.states.history.len() as int;
                    let j = choose|j: int| 0 <= j < n && m.states.history[j] == x;
                    assert(after.states.history.take(n)[j] == x);
                    assert(after.states.history[j] == x);
                }
            }
            assert(times_waiting(q, x) == times_waiting(m, x) + if x == c {
                1nat
            } else {
                0
            });
        }
    }
}

/// What one replica has applied, another has too that has it in hand and rests.
proof fn lemma_applied_there(m: OpSetView, n: OpSetView, j: int)
    requires
        m.delivered(),
        n.delivered(),
        n.complete(),
        n.next_ready() is None,
        forall|x: ChangeView| #[trigger]
            m.states.history.contains(x) ==> n.waiting().contains(x) || n.states.history.contains(x),
        0 <= j <= m.states.history.len(),
    ensures
        forall|i: int|
            0 <= i < j ==> n.states.history.contains(#[trigger] m.states.history[i]),
    decreases j,
{
    if j > 0 {
        let h = m.states.history;
        let k = j - 1;
        let c = h[k];
        lemma_applied_there(m, n, k);
        assert(h.contains(c));
        if !n.states.history.contains(c) {
            assert(n.ready(c)) by {
                assert forall|a: Seq<char>| #[trigger] c.needs().get(a) <= n.clock.get(a) by {
                    let v = c.needs().get(a);
                    if v >= 1 {
                        assert(h[k].needs().get(a) == v);
                        assert(listed(h.take(k), a, v));
                        let i = choose|i: int|
                            0 <= i < h.take(k).len() && (#[trigger] h.take(k)[i]).actor == a
                                && h.take(k)[i].seq == v;
                        assert(n.states.history.contains(h[i]));
                        let l = choose|l: int|
                            0 <= l < n.states.history.len() && n.states.history[l] == h[i];
                        assert(n.states.applied(n.states.history[l].actor, v) is Some);
                        assert(n.clock.get(a) == n.states.log(a).len());
                    }
                }
            }
            let i = choose|i: int| 0 <= i < n.waiting().len() && n.waiting()[i] == c;
            lemma_some_first_ready(n, i);
        }
    }
}

/// Of two replicas to which the same came, the one has applied what the other has.
proof fn lemma_applied_by_both(m: OpSetView, n: OpSetView, p: Seq<ChangeView>, q: Seq<ChangeView>)
    requires
        accounted(m, p),
        accounted(n, q),
        p.to_multiset() == q.to_multiset(),
    ensures
        forall|x: ChangeView| #[trigger]
            m.states.history.contains(x) ==> n.states.history.contains(x),
        forall|a: Seq<char>| #[trigger] m.clock.get(a) <= n.clock.get(a),
{
    broadcast use group_to_multiset_ensures;

    let h = m.states.history;
    assert forall|x: ChangeView| #[trigger] h.contains(x) implies n.waiting().contains(x)
        || n.states.history.contains(x) by {
        assert(p.contains(x));
        assert(q.to_multiset().count(x) > 0);
        assert(times_waiting(n, x) == if n.states.history.contains(x) {
            0
        } else {
            q.to_multiset().count(x)
        });
    }
    lemma_applied_there(m, n, h.len() as int);
    assert forall|a: Seq<char>| #[trigger] m.clock.get(a) <= n.clock.get(a) by {
        let v = m.clock.get(a);
        assert(v == m.states.log(a).len());
        assert(n.clock.get(a) == n.states.log(a).len());
        if v > 0 {
            assert(m.states.applied(a, v) is Some);
            let c = m.states.applied(a, v)->Some_0.change;
            assert(h.contains(c));
            assert(n.states.history.contains(c));
            let l = choose|l: int| 0 <= l < n.states.history.len() && n.states.history[l] == c;
            assert(n.states.applied(n.states.history[l].actor, v) is Some);
        }
    }
}

/// What changes need does not depend on their order.
proof fn lemma_needed_alike(a: Seq<ChangeView>, b: Seq<ChangeView>)
    requires
        a.to_multiset() == b.to_multiset(),
    ensures
        forall|x: Seq<char>| #[trigger] needed(a).get(x) <= needed(b).get(x),
        needed(a).canonical(),
{
    broadcast use group_to_multiset_ensures;

    lemma_needed(a);
    lemma_needed(b);
    assert forall|x: Seq<char>| #[trigger] needed(a).get(x) <= needed(b).get(x) by {
        if needed(a).get(x) > 0 {
            let i = choose|i: int|
                0 <= i < a.len() && (#[trigger] a[i]).needs().get(x) == needed(a).get(x);
            assert(a.contains(a[i]));
            assert(b.to_multiset().count(a[i]) > 0);
            assert(b.contains(a[i]));
            let j = choose|j: int| 0 <= j < b.len() && b[j] == a[i];
            assert(b[j].needs().within(needed(b)));
        }
    }
}

/// The order in which changes come does not matter: two replicas to which the
/// same changes came, in whatever orders, and of which neither refused one, have
/// applied the same changes, each in causal order. Their clocks are equal; the
/// same changes wait, as often as they came; and so the same dependencies are
/// missing.
pub proof fn order_of_arrival_does_not_matter(
    p: Seq<(ChangeView, bool)>,
    q: Seq<(ChangeView, bool)>,
)
    requires
        forall|i: int| 0 <= i < p.len() ==> (#[trigger] p[i]).0.seq >= 1,
        changes_of(p).to_multiset() == changes_of(q).to_multiset(),
        after_arrivals(p) is Some,
        after_arrivals(q) is Some,
    ensures
        ({
            let m = after_arrivals(p)->Some_0;
            let n = after_arrivals(q)->Some_0;
            &&& m.clock == n.clock
            &&& same_changes(m.states.history, n.states.history)
            &&& in_causal_order(m.states.history)
            &&& in_causal_order(n.states.history)
            &&& m.waiting().to_multiset() == n.waiting().to_multiset()
            &&& m.missing_deps() == n.missing_deps()
        }),
{
    let m = after_arrivals(p)->Some_0;
    let n = after_arrivals(q)->Some_0;
    lemma_both_accounted(p, q);
    lemma_applied_by_both(m, n, changes_of(p), changes_of(q));
    lemma_applied_by_both(n, m, changes_of(q), changes_of(p));
    assert forall|a: Seq<char>| #[trigger] m.clock.get(a) == n.clock.get(a) by {
        assert(m.clock.get(a) <= n.clock.get(a));
        assert(n.clock.get(a) <= m.clock.get(a));
    }
    lemma_clock_equal(m.clock, n.clock);
    let a = m.waiting();
    let b = n.waiting();
    assert forall|x: ChangeView| a.to_multiset().count(x) == b.to_multiset().count(x) by {
        assert(times_waiting(m, x) == times_waiting(n, x));
    }
    assert(a.to_multiset() =~= b.to_multiset());
    lemma_needed_alike(a, b);
    lemma_needed_alike(b, a);
    assert forall|x: Seq<char>| #[trigger] needed(a).get(x) == needed(b).get(x) by {
        assert(needed(a).get(x) <= needed(b).get(x));
        assert(needed(b).get(x) <= needed(a).get(x));
    }
    lemma_clock_equal(needed(a), needed(b));
}

proof fn lemma_both_accounted(p: Seq<(ChangeView, bool)>, q: Seq<(ChangeView, bool)>)
    requires
        forall|i: int| 0 <= i < p.len() ==> (#[trigger] p[i]).0.seq >= 1,
        changes_of(p).to_multiset() == changes_of(q).to_multiset(),
        after_arrivals(p) is Some,
        after_arrivals(q) is Some,
    ensures
        accounted(after_arrivals(p)->Some_0, changes_of(p)),
        accounted(after_arrivals(q)->Some_0, changes_of(q)),
{
    broadcast use group_to_multiset_ensures;

    let a = changes_of(p);
    let b = changes_of(q);
    assert forall|i: int| 0 <= i < q.len() implies (#[trigger] q[i]).0.seq >= 1 by {
        assert(b[i] == q[i].0);
        assert(b.contains(b[i]));
        assert(a.to_multiset().count(b[i]) > 0);
        assert(a.contains(b[i]));
        let j = choose|j: int| 0 <= j < a.len() && a[j] == b[i];
        assert(p[j].0 == a[j]);
    }
    lemma_accounted(p);
    lemma_accounted(q);
}

/// Two replicas to which the same changes came, in whatever orders, and of which
/// neither refused one, hold the same document.
///
/// This is said of changes of which none makes an object that a concurrent one
/// is on, unless both make it alike: an object that is made again starts anew.
pub proof fn document_does_not_depend_on_order_of_arrival(
    p: Seq<(ChangeView, bool)>,
    q: Seq<(ChangeView, bool)>,
)
    requires
        forall|i: int| 0 <= i < p.len() ==> (#[trigger] p[i]).0.seq >= 1,
        changes_of(p).to_multiset() == changes_of(q).to_multiset(),
        after_arrivals(p) is Some,
        after_arrivals(q) is Some,
        compatible(
            after_arrivals(p)->Some_0.states,
            after_arrivals(p)->Some_0.states.history,
        ),
    ensures
        same_document(after_arrivals(p)->Some_0.store, after_arrivals(q)->Some_0.store),
{
    lemma_both_accounted(p, q);
    order_of_arrival_does_not_matter(p, q);
    replicas_converge(after_arrivals(p)->Some_0, after_arrivals(q)->Some_0);
}

} // verus!

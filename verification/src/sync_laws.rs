//! What holds of bringing another replica up to date.

use vstd::prelude::*;

use crate::causal_laws::{in_causal_order, listed};
use crate::clock::ClockView;
use crate::delivery::{needed, OpSetView};
use crate::protocol::ChangeView;
use crate::seqs::{lemma_filter_all, lemma_filter_place, lemma_filter_twice};

verus! {

/// One who has seen nothing misses the whole history.
pub proof fn one_who_saw_nothing_misses_all(m: OpSetView)
    requires
        m.states.consistent(),
    ensures
        m.missing_changes(ClockView::none()) == m.states.history,
{
    let p = |c: ChangeView| c.seq > ClockView::none().get(c.actor);
    let h = m.states.history;
    assert forall|i: int| 0 <= i < h.len() implies p(#[trigger] h[i]) by {
        assert(m.states.applied(h[i].actor, h[i].seq) is Some);
    }
    lemma_filter_all(h, p);
}

/// One who has seen all that was applied misses nothing.
pub proof fn one_who_saw_all_misses_nothing(m: OpSetView, since: ClockView)
    requires
        m.states.consistent(),
        forall|a: Seq<char>| #[trigger] since.get(a) >= m.states.log(a).len(),
    ensures
        m.missing_changes(since).len() == 0,
{
    let p = |c: ChangeView| c.seq > since.get(c.actor);
    let h = m.states.history;
    assert forall|i: int| 0 <= i < h.len() implies !p(#[trigger] h[i]) by {
        assert(m.states.applied(h[i].actor, h[i].seq) is Some);
        assert(since.get(h[i].actor) >= m.states.log(h[i].actor).len());
    }
    h.lemma_all_neg_filter_empty(p);
}

/// The missing changes can be applied as they come by one who has seen `since`:
/// all that each of them needs was seen, or comes before it.
pub proof fn missing_changes_come_in_causal_order(
    m: OpSetView,
    since: ClockView,
    i: int,
    a: Seq<char>,
    n: u32,
)
    requires
        in_causal_order(m.states.history),
        0 <= i < m.missing_changes(since).len(),
        1 <= n <= m.missing_changes(since)[i].needs().get(a),
    ensures
        n <= since.get(a) || listed(m.missing_changes(since).take(i), a, n),
{
    let p = |c: ChangeView| c.seq > since.get(c.actor);
    let h = m.states.history;
    let missing = m.missing_changes(since);
    let j = lemma_filter_place(h, p, i);
    assert(h[j].needs().get(a) >= n);
    assert(listed(h.take(j), a, n));
    let before = h.take(j);
    let k = choose|k: int|
        0 <= k < before.len() && (#[trigger] before[k]).actor == a && before[k].seq == n;
    if n > since.get(a) {
        assert(p(before[k]));
        before.lemma_filter_contains(p, k);
        let x = choose|x: int| 0 <= x < missing.take(i).len() && missing.take(i)[x] == before[k];
        assert(missing.take(i)[x].actor == a);
    }
}

/// One who has seen more misses fewer changes: of those that one misses who has
/// seen less, in their order, the ones that are still not seen.
pub proof fn one_who_saw_more_misses_fewer(m: OpSetView, less: ClockView, more: ClockView)
    requires
        less.within(more),
    ensures
        m.missing_changes(more) == m.missing_changes(less).filter(
            |c: ChangeView| c.seq > more.get(c.actor),
        ),
{
    let p = |c: ChangeView| c.seq > less.get(c.actor);
    let q = |c: ChangeView| c.seq > more.get(c.actor);
    assert forall|c: ChangeView| #[trigger] q(c) implies p(c) by {
        assert(less.get(c.actor) <= more.get(c.actor));
    }
    lemma_filter_twice(m.states.history, p, q);
}

/// The missing dependencies are what the changes that wait need, and no more.
pub proof fn missing_deps_are_what_waiting_changes_need(m: OpSetView)
    ensures
        forall|i: int|
            0 <= i < m.queue.len() ==> (#[trigger] m.queue[i]).0.needs().within(m.missing_deps()),
        forall|a: Seq<char>| #[trigger]
            m.missing_deps().get(a) > 0 ==> exists|i: int|
                0 <= i < m.queue.len() && (#[trigger] m.queue[i]).0.needs().get(a)
                    == m.missing_deps().get(a),
{
    let w = m.waiting();
    lemma_needed(w);
    assert forall|i: int| 0 <= i < m.queue.len() implies (
    #[trigger] m.queue[i]).0.needs().within(m.missing_deps()) by {
        assert(w[i].needs().within(needed(w)));
    }
    assert forall|a: Seq<char>| #[trigger] m.missing_deps().get(a) > 0 implies exists|i: int|
        0 <= i < m.queue.len() && (#[trigger] m.queue[i]).0.needs().get(a)
            == m.missing_deps().get(a) by {
        let i = choose|i: int|
            0 <= i < w.len() && (#[trigger] w[i]).needs().get(a) == needed(w).get(a);
        assert(m.queue[i].0 == w[i]);
    }
}

/// What the changes of a list need is what one of them needs, of each actor.
pub proof fn lemma_needed(queue: Seq<ChangeView>)
    ensures
        forall|i: int|
            0 <= i < queue.len() ==> (#[trigger] queue[i]).needs().within(needed(queue)),
        forall|a: Seq<char>| #[trigger]
            needed(queue).get(a) > 0 ==> exists|i: int|
                0 <= i < queue.len() && (#[trigger] queue[i]).needs().get(a) == needed(queue).get(
                    a,
                ),
    decreases queue.len(),
{
    if queue.len() > 0 {
        let rest = queue.drop_last();
        let c = queue.last();
        lemma_needed(rest);
        assert forall|i: int| 0 <= i < queue.len() implies (#[trigger] queue[i]).needs().within(
            needed(queue),
        ) by {
            if i < rest.len() {
                assert(queue[i] == rest[i]);
                assert(rest[i].needs().within(needed(rest)));
                assert forall|a: Seq<char>| #[trigger] queue[i].needs().get(a) <= needed(queue).get(
                    a,
                ) by {
                    assert(rest[i].needs().get(a) <= needed(rest).get(a));
                }
            }
        }
        assert forall|a: Seq<char>| #[trigger] needed(queue).get(a) > 0 implies exists|i: int|
            0 <= i < queue.len() && (#[trigger] queue[i]).needs().get(a) == needed(queue).get(
                a,
            ) by {
            if c.needs().get(a) == needed(queue).get(a) {
                assert(queue[queue.len() - 1] == c);
            } else {
                assert(needed(rest).get(a) == needed(queue).get(a));
                let i = choose|i: int|
                    0 <= i < rest.len() && (#[trigger] rest[i]).needs().get(a) == needed(rest).get(
                        a,
                    );
                assert(queue[i] == rest[i]);
            }
        }
    }
}

/// Where no change is ready and nothing is missing, nothing waits.
pub proof fn nothing_waits_where_nothing_is_missing(m: OpSetView)
    requires
        forall|i: int| 0 <= i < m.queue.len() ==> !m.ready((#[trigger] m.queue[i]).0),
        m.missing_deps().within(m.clock),
    ensures
        m.queue.len() == 0,
{
    if m.queue.len() > 0 {
        lemma_needed(m.waiting());
        let c = m.waiting()[0];
        assert(c.needs().within(m.missing_deps()));
        assert forall|a: Seq<char>| #[trigger] c.needs().get(a) <= m.clock.get(a) by {
            assert(c.needs().get(a) <= m.missing_deps().get(a));
            assert(m.missing_deps().get(a) <= m.clock.get(a));
        }
        assert(m.ready(m.queue[0].0));
    }
}

} // verus!

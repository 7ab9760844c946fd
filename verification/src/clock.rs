//! Vector clocks: how much of each actor's history something builds on.

use std::cmp::Ordering;

use vstd::prelude::*;

use crate::ids::{ActorID, Ident};

verus! {

/// A clock says, for each actor, up to which of its changes something has seen:
/// a change with sequence number `n` is seen when the clock gives its actor `n`
/// or more.
#[derive(Debug)]
pub struct Clock {
    entries: Vec<(ActorID, u32)>,
}

/// The view of a [`Clock`]: the actors of which something was seen, with the
/// sequence number that was seen last.
#[verifier::ext_equal]
pub struct ClockView {
    pub seqs: Map<Seq<char>, u32>,
}

/// The larger of two sequence numbers.
pub open spec fn later(a: u32, b: u32) -> u32 {
    if a < b {
        b
    } else {
        a
    }
}

impl ClockView {
    /// The clock that has seen nothing.
    pub open spec fn none() -> ClockView {
        ClockView { seqs: Map::empty() }
    }

    /// What the clock has seen of an actor; 0 for nothing.
    pub open spec fn get(self, actor: Seq<char>) -> u32 {
        if self.seqs.contains_key(actor) {
            self.seqs[actor]
        } else {
            0
        }
    }

    /// The clock with the values that `f` gives.
    pub open spec fn from_fn(f: spec_fn(Seq<char>) -> u32) -> ClockView {
        ClockView { seqs: Map::new(|a: Seq<char>| f(a) > 0, f) }
    }

    /// The clock that has also seen the change `seq` of `actor`.
    pub open spec fn with(self, actor: Seq<char>, seq: u32) -> ClockView {
        ClockView::from_fn(
            |a: Seq<char>|
                if a == actor {
                    later(self.get(a), seq)
                } else {
                    self.get(a)
                },
        )
    }

    /// The clock that has seen what either of two has seen.
    pub open spec fn union(self, other: ClockView) -> ClockView {
        ClockView::from_fn(|a: Seq<char>| later(self.get(a), other.get(a)))
    }

    /// Whether all that `self` has seen, `other` has seen too.
    pub open spec fn within(self, other: ClockView) -> bool {
        forall|a: Seq<char>| #[trigger] self.get(a) <= other.get(a)
    }

    /// A clock lists no actor of which nothing was seen.
    pub open spec fn canonical(self) -> bool {
        forall|a: Seq<char>| #[trigger] self.seqs.contains_key(a) ==> self.seqs[a] > 0
    }
}

/// Two clocks that have seen the same are equal.
pub proof fn lemma_clock_equal(a: ClockView, b: ClockView)
    requires
        a.canonical(),
        b.canonical(),
        forall|x: Seq<char>| #[trigger] a.get(x) == b.get(x),
    ensures
        a == b,
{
    assert forall|x: Seq<char>| a.seqs.contains_key(x) == b.seqs.contains_key(x) && (
    a.seqs.contains_key(x) ==> a.seqs[x] == b.seqs[x]) by {
        assert(a.get(x) == b.get(x));
    }
    assert(a.seqs =~= b.seqs);
}

/// What a list of entries says of an actor: the largest sequence number given.
spec fn latest(entries: Seq<(ActorID, u32)>, actor: Seq<char>) -> u32
    decreases entries.len(),
{
    if entries.len() == 0 {
        0
    } else {
        let (a, n) = entries.last();
        let before = latest(entries.drop_last(), actor);
        if a.deep_view() == actor {
            later(before, n)
        } else {
            before
        }
    }
}

proof fn lemma_latest_push(entries: Seq<(ActorID, u32)>, e: (ActorID, u32))
    ensures
        forall|a: Seq<char>| #[trigger]
            latest(entries.push(e), a) == if e.0.deep_view() == a {
                later(latest(entries, a), e.1)
            } else {
                latest(entries, a)
            },
{
    assert(entries.push(e).drop_last() =~= entries);
}

proof fn lemma_latest_bound(entries: Seq<(ActorID, u32)>, i: int)
    requires
        0 <= i < entries.len(),
    ensures
        entries[i].1 <= latest(entries, entries[i].0.deep_view()),
    decreases entries.len(),
{
    if i < entries.len() - 1 {
        lemma_latest_bound(entries.drop_last(), i);
    }
}

/// Raising one entry above all that was known of its actor.
proof fn lemma_latest_update(entries: Seq<(ActorID, u32)>, i: int, n: u32)
    requires
        0 <= i < entries.len(),
        n >= latest(entries, entries[i].0.deep_view()),
    ensures
        forall|a: Seq<char>| #[trigger]
            latest(entries.update(i, (entries[i].0, n)), a) == if entries[i].0.deep_view() == a {
                n
            } else {
                latest(entries, a)
            },
    decreases entries.len(),
{
    let e = (entries[i].0, n);
    let who = entries[i].0.deep_view();
    let all = entries.update(i, e);
    if i == entries.len() - 1 {
        assert(all.drop_last() =~= entries.drop_last());
        assert(all.last() == e);
    } else {
        let rest = entries.drop_last();
        assert(rest[i] == entries[i]);
        assert(all.drop_last() =~= rest.update(i, (rest[i].0, n)));
        assert(all.last() == entries.last());
        lemma_latest_update(rest, i, n);
        assert forall|a: Seq<char>| #[trigger]
            latest(all, a) == if who == a {
                n
            } else {
                latest(entries, a)
            } by {
            assert(latest(all.drop_last(), a) == if who == a {
                n
            } else {
                latest(rest, a)
            });
            assert(latest(entries, who) >= latest(rest, who));
        }
    }
}

impl DeepView for Clock {
    type V = ClockView;

    closed spec fn deep_view(&self) -> ClockView {
        ClockView::from_fn(|a: Seq<char>| latest(self.entries@, a))
    }
}

impl Clone for Clock {
    fn clone(&self) -> (r: Self)
        ensures
            r.deep_view() == self.deep_view(),
    {
        let mut entries: Vec<(ActorID, u32)> = Vec::new();
        let mut i: usize = 0;
        while i < self.entries.len()
            invariant
                i <= self.entries@.len(),
                entries@ == self.entries@.take(i as int),
            decreases self.entries@.len() - i,
        {
            entries.push((self.entries[i].0.clone(), self.entries[i].1));
            i += 1;
            assert(entries@ =~= self.entries@.take(i as int));
        }
        assert(entries@ =~= self.entries@);
        Clock { entries }
    }
}

impl Clock {
    /// The view of a clock lists no actor of which nothing was seen.
    pub proof fn lemma_canonical(&self)
        ensures
            self.deep_view().canonical(),
    {
    }

    /// The clock that has seen nothing.
    pub fn empty() -> (r: Clock)
        ensures
            r.deep_view() == ClockView::none(),
    {
        let r = Clock { entries: Vec::new() };
        assert(r.deep_view() =~= ClockView::none());
        r
    }

    /// What the clock has seen of an actor; 0 for nothing.
    pub fn get(&self, actor_id: &ActorID) -> (r: u32)
        ensures
            r == self.deep_view().get(actor_id.deep_view()),
    {
        let mut r: u32 = 0;
        let mut i: usize = 0;
        assert(self.entries@.take(0) =~= Seq::<(ActorID, u32)>::empty());
        while i < self.entries.len()
            invariant
                i <= self.entries@.len(),
                r == latest(self.entries@.take(i as int), actor_id.deep_view()),
            decreases self.entries@.len() - i,
        {
            let ghost e = self.entries@[i as int];
            proof {
                assert(self.entries@.take(i + 1) =~= self.entries@.take(i as int).push(e));
                lemma_latest_push(self.entries@.take(i as int), e);
            }
            if self.entries[i].0.same(actor_id) && self.entries[i].1 > r {
                r = self.entries[i].1;
            }
            i += 1;
        }
        assert(self.entries@.take(i as int) =~= self.entries@);
        r
    }

    /// Notes that the change `seq` of an actor was seen.
    fn note(&mut self, actor_id: &ActorID, seq: u32)
        ensures
            final(self).deep_view() == old(self).deep_view().with(actor_id.deep_view(), seq),
    {
        let ghost before = self.deep_view();
        let ghost goal = before.with(actor_id.deep_view(), seq);
        let seen = self.get(actor_id);
        if seq <= seen {
            proof {
                lemma_clock_equal(before, goal);
            }
            return ;
        }
        let mut i: usize = 0;
        while i < self.entries.len()
            invariant
                i <= self.entries@.len(),
                self.entries@ == old(self).entries@,
                before == self.deep_view(),
                goal == before.with(actor_id.deep_view(), seq),
                seq > before.get(actor_id.deep_view()),
            decreases self.entries@.len() - i,
        {
            if self.entries[i].0.same(actor_id) {
                proof {
                    lemma_latest_update(self.entries@, i as int, seq);
                }
                let ghost e = (self.entries@[i as int].0, seq);
                self.entries[i].1 = seq;
                proof {
                    assert(self.entries@ =~= old(self).entries@.update(i as int, e));
                    lemma_clock_equal(self.deep_view(), goal);
                }
                return ;
            }
            i += 1;
        }
        self.entries.push((actor_id.clone(), seq));
        proof {
            lemma_latest_push(old(self).entries@, (*actor_id, seq));
            lemma_clock_equal(self.deep_view(), goal);
        }
    }

    /// The clock that has also seen the change `seq` of an actor.
    pub fn with(&self, actor_id: &ActorID, seq: u32) -> (r: Clock)
        ensures
            r.deep_view() == self.deep_view().with(actor_id.deep_view(), seq),
    {
        let mut r = self.clone();
        r.note(actor_id, seq);
        r
    }

    /// The clock that has seen what either of the two has seen.
    pub fn union(&self, other: &Clock) -> (r: Clock)
        ensures
            r.deep_view() == self.deep_view().union(other.deep_view()),
    {
        let mut r = self.clone();
        let mut i: usize = 0;
        assert(other.entries@.take(0) =~= Seq::<(ActorID, u32)>::empty());
        while i < other.entries.len()
            invariant
                i <= other.entries@.len(),
                forall|a: Seq<char>| #[trigger]
                    r.deep_view().get(a) == later(
                        self.deep_view().get(a),
                        latest(other.entries@.take(i as int), a),
                    ),
            decreases other.entries@.len() - i,
        {
            let ghost e = other.entries@[i as int];
            proof {
                assert(other.entries@.take(i + 1) =~= other.entries@.take(i as int).push(e));
                lemma_latest_push(other.entries@.take(i as int), e);
            }
            r.note(&other.entries[i].0, other.entries[i].1);
            i += 1;
        }
        proof {
            assert(other.entries@.take(i as int) =~= other.entries@);
            lemma_clock_equal(r.deep_view(), self.deep_view().union(other.deep_view()));
        }
        r
    }

    /// The actors of which the clock has seen something.
    pub(crate) fn actors(&self) -> (r: Vec<ActorID>)
        ensures
            forall|a: Seq<char>| #[trigger]
                self.deep_view().get(a) > 0 ==> r.deep_view().contains(a),
            forall|i: int|
                0 <= i < r@.len() ==> self.deep_view().get(#[trigger] r.deep_view()[i]) > 0,
    {
        let mut r: Vec<ActorID> = Vec::new();
        let mut i: usize = 0;
        assert(self.entries@.take(0) =~= Seq::<(ActorID, u32)>::empty());
        while i < self.entries.len()
            invariant
                i <= self.entries@.len(),
                forall|a: Seq<char>| #[trigger]
                    latest(self.entries@.take(i as int), a) > 0 ==> r.deep_view().contains(a),
                forall|j: int|
                    0 <= j < r@.len() ==> self.deep_view().get(#[trigger] r.deep_view()[j]) > 0,
            decreases self.entries@.len() - i,
        {
            let ghost e = self.entries@[i as int];
            let ghost before = r.deep_view();
            proof {
                assert(self.entries@.take(i + 1) =~= self.entries@.take(i as int).push(e));
                lemma_latest_push(self.entries@.take(i as int), e);
                lemma_latest_bound(self.entries@, i as int);
            }
            if self.entries[i].1 > 0 {
                r.push(self.entries[i].0.clone());
                proof {
                    assert(r.deep_view() =~= before.push(e.0.deep_view()));
                    assert forall|a: Seq<char>| before.contains(a) || a == e.0.deep_view() implies
                        r.deep_view().contains(a) by {
                        if before.contains(a) {
                            let j = choose|j: int| 0 <= j < before.len() && before[j] == a;
                            assert(r.deep_view()[j] == a);
                        } else {
                            assert(r.deep_view()[before.len() as int] == a);
                        }
                    }
                }
            }
            assert forall|a: Seq<char>| #[trigger]
                latest(self.entries@.take(i + 1), a) > 0 implies r.deep_view().contains(a) by {
                if e.0.deep_view() != a || e.1 == 0 {
                    assert(latest(self.entries@.take(i as int), a) > 0);
                }
            }
            i += 1;
        }
        assert(self.entries@.take(i as int) =~= self.entries@);
        r
    }

    /// Whether all that this clock has seen, the other has seen too.
    pub fn is_within(&self, other: &Clock) -> (r: bool)
        ensures
            r == self.deep_view().within(other.deep_view()),
    {
        let mut i: usize = 0;
        assert(self.entries@.take(0) =~= Seq::<(ActorID, u32)>::empty());
        while i < self.entries.len()
            invariant
                i <= self.entries@.len(),
                forall|a: Seq<char>| #[trigger]
                    latest(self.entries@.take(i as int), a) <= other.deep_view().get(a),
            decreases self.entries@.len() - i,
        {
            let ghost e = self.entries@[i as int];
            proof {
                assert(self.entries@.take(i + 1) =~= self.entries@.take(i as int).push(e));
                lemma_latest_push(self.entries@.take(i as int), e);
            }
            if self.entries[i].1 > other.get(&self.entries[i].0) {
                proof {
                    lemma_latest_bound(self.entries@, i as int);
                    let a = e.0.deep_view();
                    assert(self.deep_view().get(a) > other.deep_view().get(a));
                }
                return false;
            }
            i += 1;
        }
        assert(self.entries@.take(i as int) =~= self.entries@);
        true
    }

    /// Whether the two clocks have seen the same.
    fn agrees_with(&self, other: &Clock) -> (r: bool)
        ensures
            r == (self.deep_view() == other.deep_view()),
    {
        let r = self.is_within(other) && other.is_within(self);
        proof {
            if r {
                assert forall|a: Seq<char>| #[trigger]
                    self.deep_view().get(a) == other.deep_view().get(a) by {
                    assert(other.deep_view().get(a) <= self.deep_view().get(a));
                }
                lemma_clock_equal(self.deep_view(), other.deep_view());
            }
        }
        r
    }
}

impl PartialEq for Clock {
    fn eq(&self, other: &Self) -> (r: bool) {
        self.agrees_with(other)
    }
}

impl vstd::std_specs::cmp::PartialEqSpecImpl for Clock {
    open spec fn obeys_eq_spec() -> bool {
        true
    }

    open spec fn eq_spec(&self, other: &Self) -> bool {
        self.deep_view() == other.deep_view()
    }
}

impl PartialOrd for Clock {
    fn partial_cmp(&self, other: &Self) -> (r: Option<Ordering>) {
        let le = self.is_within(other);
        let ge = other.is_within(self);
        if le && ge {
            Some(Ordering::Equal)
        } else if le {
            Some(Ordering::Less)
        } else if ge {
            Some(Ordering::Greater)
        } else {
            None
        }
    }
}

impl vstd::std_specs::cmp::PartialOrdSpecImpl for Clock {
    open spec fn obeys_partial_cmp_spec() -> bool {
        true
    }

    open spec fn partial_cmp_spec(&self, other: &Self) -> Option<Ordering> {
        let le = self.deep_view().within(other.deep_view());
        let ge = other.deep_view().within(self.deep_view());
        if le && ge {
            Some(Ordering::Equal)
        } else if le {
            Some(Ordering::Less)
        } else if ge {
            Some(Ordering::Greater)
        } else {
            None
        }
    }
}

} // verus!

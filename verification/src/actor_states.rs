//! The changes that were applied, and what each of them builds on.

use std::rc::Rc;

use vstd::prelude::*;

use crate::assoc::AssocMap;
use crate::clock::{lemma_clock_equal, Clock, ClockView};
use crate::error::{AutomergeError, ErrorView};
use crate::ids::{ActorID, Ident, Twin};
use crate::protocol::{Change, ChangeView, OpView, OperationWithMetadata};
use crate::text::owned;

verus! {

/// An applied change, with all that it builds on directly or indirectly.
#[derive(Debug)]
struct Applied {
    change: Rc<Change>,
    deps: Clock,
}

/// The view of an applied change.
#[verifier::ext_equal]
pub struct AppliedView {
    pub change: ChangeView,
    pub deps: ClockView,
}

impl DeepView for Applied {
    type V = AppliedView;

    closed spec fn deep_view(&self) -> AppliedView {
        AppliedView { change: self.change.deep_view(), deps: self.deps.deep_view() }
    }
}

impl Twin for Applied {
    fn twin(&self) -> (r: Self) {
        Applied { change: Rc::clone(&self.change), deps: self.deps.clone() }
    }
}

impl Ident for Applied {
    fn same(&self, other: &Self) -> (r: bool) {
        (*self.change).same(&*other.change) && self.deps == other.deps
    }
}

/// All changes that were applied: in the order in which that happened, and by
/// actor.
#[derive(Debug)]
pub struct ActorStates {
    pub history: Vec<Rc<Change>>,
    by_actor: AssocMap<ActorID, Vec<Applied>>,
}

/// The view of [`ActorStates`].
#[verifier::ext_equal]
pub struct StatesView {
    pub history: Seq<ChangeView>,
    pub by_actor: Map<Seq<char>, Seq<AppliedView>>,
}

impl DeepView for ActorStates {
    type V = StatesView;

    closed spec fn deep_view(&self) -> StatesView {
        StatesView { history: self.history.deep_view(), by_actor: self.by_actor.deep_view() }
    }
}

/// Whether two lists hold the same changes, in the same order.
fn same_history(a: &Vec<Rc<Change>>, b: &Vec<Rc<Change>>) -> (r: bool)
    ensures
        r == (a.deep_view() == b.deep_view()),
{
    if a.len() != b.len() {
        assert(a.deep_view().len() != b.deep_view().len());
        return false;
    }
    let mut i: usize = 0;
    while i < a.len()
        invariant
            i <= a@.len(),
            a@.len() == b@.len(),
            forall|j: int| 0 <= j < i ==> a.deep_view()[j] == b.deep_view()[j],
        decreases a@.len() - i,
    {
        if !(*a[i]).same(&*b[i]) {
            assert(a.deep_view()[i as int] != b.deep_view()[i as int]);
            return false;
        }
        i += 1;
    }
    assert(a.deep_view() =~= b.deep_view());
    true
}

impl Clone for ActorStates {
    fn clone(&self) -> (r: Self)
        ensures
            r.deep_view() == self.deep_view(),
    {
        let mut history: Vec<Rc<Change>> = Vec::new();
        let mut i: usize = 0;
        while i < self.history.len()
            invariant
                i <= self.history@.len(),
                history@ == self.history@.take(i as int),
            decreases self.history@.len() - i,
        {
            history.push(Rc::clone(&self.history[i]));
            i += 1;
            assert(history@ =~= self.history@.take(i as int));
        }
        assert(history@ =~= self.history@);
        assert(history.deep_view() =~= self.history.deep_view());
        ActorStates { history, by_actor: self.by_actor.clone() }
    }
}

impl Ident for ActorStates {
    fn same(&self, other: &Self) -> (r: bool) {
        same_history(&self.history, &other.history) && self.by_actor.same(&other.by_actor)
    }
}

impl PartialEq for ActorStates {
    fn eq(&self, other: &Self) -> (r: bool) {
        self.same(other)
    }
}

impl vstd::std_specs::cmp::PartialEqSpecImpl for ActorStates {
    open spec fn obeys_eq_spec() -> bool {
        true
    }

    open spec fn eq_spec(&self, other: &Self) -> bool {
        self.deep_view() == other.deep_view()
    }
}

impl StatesView {
    /// Nothing was applied.
    pub open spec fn none() -> StatesView {
        StatesView { history: Seq::empty(), by_actor: Map::empty() }
    }

    /// The applied changes of an actor; its change with sequence number `n` is
    /// at `n - 1`.
    pub open spec fn log(self, actor: Seq<char>) -> Seq<AppliedView> {
        if self.by_actor.contains_key(actor) {
            self.by_actor[actor]
        } else {
            Seq::empty()
        }
    }

    /// The change `seq` of an actor, if it was applied.
    pub open spec fn applied(self, actor: Seq<char>, seq: u32) -> Option<AppliedView> {
        if 1 <= seq <= self.log(actor).len() {
            Some(self.log(actor)[seq - 1])
        } else {
            None
        }
    }

    /// What the change `seq` of an actor builds on, directly or indirectly.
    pub open spec fn deps_of(self, actor: Seq<char>, seq: u32) -> ClockView {
        match self.applied(actor, seq) {
            Some(a) => a.deps,
            None => ClockView::none(),
        }
    }

    /// Two operations are concurrent when the change of neither builds on that
    /// of the other. Operations of one change are concurrent.
    pub open spec fn concurrent(self, a: OpView, b: OpView) -> bool {
        &&& self.deps_of(a.actor, a.seq).get(b.actor) < b.seq
        &&& self.deps_of(b.actor, b.seq).get(a.actor) < a.seq
    }

    /// Whether something that depends on `clock` builds on the change `seq` of
    /// an actor, directly or through a change that it depends on.
    pub open spec fn reaches(self, clock: ClockView, actor: Seq<char>, seq: u32) -> bool {
        ||| seq <= clock.get(actor)
        ||| exists|a: Seq<char>| seq <= #[trigger] self.deps_of(a, clock.get(a)).get(actor)
    }

    /// `seq` is the last change of an actor that is reached from `clock`.
    pub open spec fn last_reached(self, clock: ClockView, actor: Seq<char>, seq: u32) -> bool {
        &&& self.reaches(clock, actor, seq)
        &&& forall|n: u32| #[trigger] self.reaches(clock, actor, n) ==> n <= seq
    }

    /// All that something that depends on `clock` builds on.
    pub open spec fn all_deps(self, clock: ClockView) -> ClockView {
        ClockView::from_fn(
            |actor: Seq<char>| choose|seq: u32| self.last_reached(clock, actor, seq),
        )
    }

    /// These states, with a change added that was applied last.
    pub open spec fn extended(self, c: ChangeView) -> StatesView {
        let deps = self.all_deps(c.needs());
        StatesView {
            history: self.history.push(c),
            by_actor: self.by_actor.insert(
                c.actor,
                self.log(c.actor).push(AppliedView { change: c, deps }),
            ),
        }
    }

    /// What adding a change comes to: the states after it; `None` for a change
    /// that was applied before; or an error where another change with the same
    /// number was applied.
    pub open spec fn add_change(self, c: ChangeView) -> Result<Option<StatesView>, ErrorView> {
        match self.applied(c.actor, c.seq) {
            Some(a) => if a.change == c {
                Ok(None)
            } else {
                Err(ErrorView::InvalidChange("Invalid reuse of sequence number for actor"@))
            },
            None => Ok(Some(self.extended(c))),
        }
    }
}

impl ChangeView {
    /// What must have been applied before this change: its dependencies, and
    /// the changes of its actor that come before it.
    pub open spec fn needs(self) -> ClockView
        recommends
            self.seq >= 1,
    {
        self.deps.with(self.actor, (self.seq - 1) as u32)
    }
}

impl Change {
    /// What must have been applied before this change: its dependencies, and
    /// the changes of its actor that come before it.
    pub fn needs(&self) -> (r: Clock)
        requires
            self.seq >= 1,
        ensures
            r.deep_view() == self.deep_view().needs(),
    {
        self.dependencies.with(&self.actor_id, self.seq - 1)
    }
}

impl ActorStates {
    /// Where nothing was applied yet.
    pub fn new() -> (r: ActorStates)
        ensures
            r.deep_view() == StatesView::none(),
    {
        let r = ActorStates { history: Vec::new(), by_actor: AssocMap::new() };
        assert(r.deep_view() =~= StatesView::none());
        r
    }

    /// The changes that were applied, in the order in which that happened.
    pub fn changes(&self) -> (r: &Vec<Rc<Change>>)
        ensures
            r.deep_view() == self.deep_view().history,
    {
        &self.history
    }

    fn find(&self, actor_id: &ActorID, seq: u32) -> (r: Option<&Applied>)
        ensures
            match r {
                Some(a) => self.deep_view().applied(actor_id.deep_view(), seq) == Some(
                    a.deep_view(),
                ),
                None => self.deep_view().applied(actor_id.deep_view(), seq) is None,
            },
    {
        match self.by_actor.get(actor_id) {
            Some(log) => {
                if seq >= 1 && ((seq - 1) as usize) < log.len() {
                    Some(&log[(seq - 1) as usize])
                } else {
                    None
                }
            },
            None => None,
        }
    }

    /// What the change `seq` of an actor builds on, directly or indirectly.
    fn deps_of(&self, actor_id: &ActorID, seq: u32) -> (r: Clock)
        ensures
            r.deep_view() == self.deep_view().deps_of(actor_id.deep_view(), seq),
    {
        match self.find(actor_id, seq) {
            Some(a) => a.deps.clone(),
            None => Clock::empty(),
        }
    }

    /// Whether neither of the changes that two operations came in builds on the
    /// other.
    pub fn is_concurrent(&self, a: &OperationWithMetadata, b: &OperationWithMetadata) -> (r: bool)
        ensures
            r == self.deep_view().concurrent(a.deep_view(), b.deep_view()),
    {
        let da = self.deps_of(&a.actor_id, a.sequence);
        let db = self.deps_of(&b.actor_id, b.sequence);
        da.get(&b.actor_id) < b.sequence && db.get(&a.actor_id) < a.sequence
    }

    /// All that something that depends on `clock` builds on.
    fn all_deps(&self, clock: &Clock) -> (r: Clock)
        ensures
            r.deep_view() == self.deep_view().all_deps(clock.deep_view()),
    {
        let ghost s = self.deep_view();
        let ghost c = clock.deep_view();
        let actors = clock.actors();
        let mut r = clock.clone();
        let mut i: usize = 0;
        while i < actors.len()
            invariant
                i <= actors@.len(),
                s == self.deep_view(),
                c == clock.deep_view(),
                forall|b: Seq<char>| #[trigger] s.reaches(c, b, r.deep_view().get(b)),
                forall|b: Seq<char>| c.get(b) <= #[trigger] r.deep_view().get(b),
                forall|b: Seq<char>, j: int|
                    0 <= j < i ==> s.deps_of(
                        #[trigger] actors.deep_view()[j],
                        c.get(actors.deep_view()[j]),
                    ).get(b) <= #[trigger] r.deep_view().get(b),
            decreases actors@.len() - i,
        {
            let ghost before = r.deep_view();
            let ghost a = actors.deep_view()[i as int];
            assert(a == actors@[i as int].deep_view());
            let seq = clock.get(&actors[i]);
            let d = self.deps_of(&actors[i], seq);
            r = r.union(&d);
            assert forall|b: Seq<char>| #[trigger] s.reaches(c, b, r.deep_view().get(b)) by {
                if r.deep_view().get(b) == before.get(b) {
                    assert(s.reaches(c, b, before.get(b)));
                } else {
                    assert(s.deps_of(a, c.get(a)).get(b) == r.deep_view().get(b));
                }
            }
            assert forall|b: Seq<char>| before.get(b) <= #[trigger] r.deep_view().get(b) by {}
            i += 1;
        }
        proof {
            let goal = s.all_deps(c);
            assert forall|b: Seq<char>| #[trigger] r.deep_view().get(b) == goal.get(b) by {
                let n = r.deep_view().get(b);
                assert forall|m: u32| #[trigger] s.reaches(c, b, m) implies m <= n by {
                    if m > c.get(b) {
                        let a = choose|a: Seq<char>| m <= #[trigger] s.deps_of(a, c.get(a)).get(b);
                        if c.get(a) > 0 {
                            assert(actors.deep_view().contains(a));
                            let j = choose|j: int|
                                0 <= j < actors.deep_view().len() && actors.deep_view()[j] == a;
                            assert(s.deps_of(actors.deep_view()[j], c.get(a)).get(b) <= n);
                        }
                    }
                }
                assert(s.last_reached(c, b, n));
                let k = choose|k: u32| s.last_reached(c, b, k);
                assert(s.reaches(c, b, k) && s.reaches(c, b, n));
                assert(k == n);
            }
            r.lemma_canonical();
            lemma_clock_equal(r.deep_view(), goal);
        }
        r
    }

    /// Adds a change. Returns `true` if it is new; `false`, and adds nothing,
    /// if it was applied before; an error if it takes the number of another
    /// change of its actor.
    pub fn add_change(&mut self, change: Change) -> (r: Result<bool, AutomergeError>)
        requires
            1 <= change.seq <= old(self).deep_view().log(change.actor_id.deep_view()).len() + 1,
        ensures
            match old(self).deep_view().add_change(change.deep_view()) {
                Ok(Some(s)) => r == Ok::<bool, AutomergeError>(true) && final(self).deep_view()
                    == s,
                Ok(None) => r == Ok::<bool, AutomergeError>(false) && final(self).deep_view()
                    == old(self).deep_view(),
                Err(e) => r is Err && r->Err_0.deep_view() == e && final(self).deep_view() == old(
                    self,
                ).deep_view(),
            },
    {
        match self.find(&change.actor_id, change.seq) {
            Some(a) => {
                return if change.same(&*a.change) {
                    Ok(false)
                } else {
                    Err(
                        AutomergeError::InvalidChange(
                            owned("Invalid reuse of sequence number for actor"),
                        ),
                    )
                };
            },
            None => {},
        }
        let ghost c = change.deep_view();
        let needs = change.needs();
        let deps = self.all_deps(&needs);
        let actor_id = change.actor_id.clone();
        let change = Rc::new(change);
        self.history.push(Rc::clone(&change));
        assert(self.history.deep_view() =~= old(self).history.deep_view().push(c));
        let applied = Applied { change, deps };
        match self.by_actor.get_mut(&actor_id) {
            Some(log) => {
                log.push(applied);
            },
            None => {
                let mut log: Vec<Applied> = Vec::new();
                log.push(applied);
                self.by_actor.insert(actor_id, log);
            },
        }
        proof {
            let old_log = old(self).deep_view().log(c.actor);
            let new_map = self.by_actor.deep_view();
            let av = AppliedView { change: c, deps: deps.deep_view() };
            assert(new_map[c.actor] =~= old_log.push(av));
            assert(new_map =~= old(self).by_actor.deep_view().insert(c.actor, old_log.push(av)));
        }
        Ok(true)
    }
}

} // verus!

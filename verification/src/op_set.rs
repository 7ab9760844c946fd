//! The operation set: it takes changes in any order, and delivers their
//! operations to the object store in causal order.

use vstd::prelude::*;

use crate::actor_states::{ActorStates, StatesView};
use crate::assoc::AssocMap;
use crate::clock::Clock;
use crate::delivery::{
    counter_told, lemma_run_in_step, lemma_told_front, needed, progress, redoing, redoing_one,
    redundant, simplified, told, OpSetView,
};
use crate::diff::{Diff, DiffAction, DiffView};
use crate::error::{AutomergeError, ErrorView};
use crate::ids::{has_object, ActorID, ElementID, Ident, ObjectID, ObjectIDView, Twin};
use crate::object_store::ObjectStore;
use crate::objects::{lookup_or, store_wf, StoreView};
use crate::protocol::{
    Change, ChangeView, OpView, Operation, OperationView, OperationWithMetadata,
};
use crate::report_laws::simplifying_twice_changes_nothing;
use crate::text::owned;

verus! {

/// The operation set manages an object store and a queue of incoming changes,
/// so that operations are delivered to the object store in causal order.
///
/// Whenever a change comes in, the changes of the queue that are causally ready
/// are applied to the object store, again and again until there is none left.
#[derive(Debug)]
pub struct OpSet {
    pub object_store: ObjectStore,
    pub clock: Clock,
    pub undo_stack: Vec<Vec<Operation>>,
    pub redo_stack: Vec<Vec<Operation>>,
    pub states: ActorStates,
    pub pending: Pending,
}

/// What an operation set keeps to itself: the changes that wait, each with
/// whether it is to be undoable, and how many entries of the undo stack can be
/// undone.
#[derive(Debug)]
pub struct Pending {
    queue: Vec<(Change, bool)>,
    undo_pos: usize,
}

impl DeepView for Pending {
    type V = (Seq<(ChangeView, bool)>, nat);

    closed spec fn deep_view(&self) -> (Seq<(ChangeView, bool)>, nat) {
        (self.queue.deep_view(), self.undo_pos as nat)
    }
}

impl DeepView for OpSet {
    type V = OpSetView;

    open spec fn deep_view(&self) -> OpSetView {
        OpSetView {
            store: self.object_store.deep_view(),
            queue: self.pending.deep_view().0,
            clock: self.clock.deep_view(),
            undo_pos: self.pending.deep_view().1,
            undo_stack: self.undo_stack.deep_view(),
            redo_stack: self.redo_stack.deep_view(),
            states: self.states.deep_view(),
        }
    }
}

impl Clone for OpSet {
    fn clone(&self) -> (r: Self)
        ensures
            r.deep_view() == self.deep_view(),
    {
        OpSet {
            object_store: self.object_store.clone(),
            clock: self.clock.clone(),
            undo_stack: self.undo_stack.twin(),
            redo_stack: self.redo_stack.twin(),
            states: self.states.clone(),
            pending: Pending {
                queue: self.pending.queue.twin(),
                undo_pos: self.pending.undo_pos,
            },
        }
    }
}

impl PartialEq for OpSet {
    fn eq(&self, other: &Self) -> (r: bool) {
        self.object_store == other.object_store && self.pending.queue.same(&other.pending.queue) && self.clock
            == other.clock && self.pending.undo_pos == other.pending.undo_pos && self.undo_stack.same(
            &other.undo_stack,
        ) && self.redo_stack.same(&other.redo_stack) && self.states.same(&other.states)
    }
}

impl vstd::std_specs::cmp::PartialEqSpecImpl for OpSet {
    open spec fn obeys_eq_spec() -> bool {
        true
    }

    open spec fn eq_spec(&self, other: &Self) -> bool {
        self.deep_view().equals(other.deep_view())
    }
}

impl Twin for (Change, bool) {
    fn twin(&self) -> (r: Self) {
        (self.0.twin(), self.1)
    }
}

impl Ident for (Change, bool) {
    fn same(&self, other: &Self) -> (r: bool) {
        self.1 == other.1 && self.0.same(&other.0)
    }
}

/// Notes that a step told a counter of a list.
fn note_counter(known: &mut AssocMap<ObjectID, u32>, list: &ObjectID, n: u32)
    ensures
        forall|id: ObjectIDView| #[trigger]
            lookup_or(final(known)@, id, 0u32) == if id == list.deep_view() && n > lookup_or(
                old(known)@,
                id,
                0u32,
            ) {
                n
            } else {
                lookup_or(old(known)@, id, 0u32)
            },
{
    let current: u32 = match known.get(list) {
        Some(m) => *m,
        None => 0,
    };
    if current < n {
        known.insert(list.clone(), n);
    }
}

/// Once an operation of a change is refused, the rest of the change does nothing.
proof fn lemma_progress_sticks(
    store: StoreView,
    states: StatesView,
    c: ChangeView,
    ops: Seq<OperationView>,
    n: int,
)
    requires
        0 <= n <= ops.len(),
        progress(store, states, c, ops.take(n)).error is Some,
    ensures
        progress(store, states, c, ops) == progress(store, states, c, ops.take(n)),
    decreases ops.len(),
{
    if n == ops.len() {
        assert(ops.take(n) =~= ops);
    } else {
        assert(ops.drop_last().take(n) =~= ops.take(n));
        lemma_progress_sticks(store, states, c, ops.drop_last(), n);
    }
}

impl OpSet {
    /// The view shows the object store, the clock, the stacks and the states as
    /// they are.
    pub proof fn view_shows_fields(&self)
        ensures
            self.deep_view().store == self.object_store.deep_view(),
            self.deep_view().clock == self.clock.deep_view(),
            self.deep_view().undo_stack == self.undo_stack.deep_view(),
            self.deep_view().redo_stack == self.redo_stack.deep_view(),
            self.deep_view().states == self.states.deep_view(),
    {
    }

    /// Where nothing came yet.
    pub fn init() -> (r: OpSet)
        ensures
            r.deep_view() == OpSetView::init(),
            r.deep_view().wf(),
            r.deep_view().in_step(),
    {
        let r = OpSet {
            object_store: ObjectStore::new(),
            clock: Clock::empty(),
            undo_stack: Vec::new(),
            redo_stack: Vec::new(),
            states: ActorStates::new(),
            pending: Pending { queue: Vec::new(), undo_pos: 0 },
        };
        assert(r.deep_view() =~= OpSetView::init());
        r
    }

    /// Takes the first change out of the queue that is causally ready. With it
    /// comes whether it is to be undoable.
    fn pop_next_causally_ready_change(&mut self) -> (r: Option<(Change, bool)>)
        requires
            old(self).deep_view().wf(),
        ensures
            final(self).deep_view().wf(),
            match old(self).deep_view().next_ready() {
                Some(i) => {
                    &&& 0 <= i < old(self).deep_view().queue.len()
                    &&& r is Some
                    &&& r->Some_0.deep_view() == old(self).deep_view().queue[i]
                    &&& final(self).deep_view() == old(self).deep_view().without(i)
                },
                None => r is None && final(self).deep_view() == old(self).deep_view(),
            },
    {
        let ghost m = self.deep_view();
        let mut index: usize = 0;
        while index < self.pending.queue.len()
            invariant
                index <= self.pending.queue@.len(),
                *self == *old(self),
                m == self.deep_view(),
                m.wf(),
                forall|j: int| 0 <= j < index ==> !m.ready((#[trigger] m.queue[j]).0),
            decreases self.pending.queue@.len() - index,
        {
            let change = &self.pending.queue[index].0;
            assert(change.deep_view() == m.queue[index as int].0);
            let deps = change.needs();
            if deps <= self.clock {
                assert(m.first_ready(index as int));
                assert forall|j: int| m.first_ready(j) implies j == index by {
                    if j < index {
                        assert(!m.ready(m.queue[j].0));
                    } else if j > index {
                        assert(!m.ready(m.queue[index as int].0));
                    }
                }
                let r = self.pending.queue.remove(index);
                assert(self.pending.queue.deep_view() =~= m.queue.remove(index as int));
                assert(self.deep_view() =~= m.without(index as int));
                return Some(r);
            }
            index += 1;
        }
        assert forall|i: int| !m.first_ready(i) by {
            if m.first_ready(i) {
                assert(m.ready(m.queue[i].0));
            }
        }
        None
    }

    /// Applies a change that is causally ready.
    ///
    /// If the change is to be undoable, the operations that take it back are put
    /// on the undo stack. For an object that the change itself makes none are
    /// needed: taking back the creation of the object is enough.
    #[verifier::rlimit(40)]
    fn apply_causally_ready_change(&mut self, change: Change, make_undoable: bool) -> (r: Result<
        Vec<Diff>,
        AutomergeError,
    >)
        requires
            old(self).deep_view().wf(),
            change.seq >= 1,
            old(self).deep_view().ready(change.deep_view()),
            old(self).deep_view().notes(change.deep_view(), make_undoable)
                ==> old(self).deep_view().in_step(),
        ensures
            final(self).deep_view().wf(),
            ({
                let (m, d) = old(self).deep_view().apply_ready(change.deep_view(), make_undoable);
                &&& final(self).deep_view() == m
                &&& match d {
                    Ok(diffs) => r is Ok && r->Ok_0.deep_view() == diffs,
                    Err(e) => r is Err && r->Err_0.deep_view() == e,
                }
            }),
    {
        let ghost m = self.deep_view();
        let ghost c = change.deep_view();
        let actor_id = change.actor_id.clone();
        let seq: u32 = change.seq;
        let operations = change.operations.twin();
        let ghost ops = operations.deep_view();
        proof {
            assert(c.needs().get(c.actor) <= m.clock.get(c.actor));
            assert(m.clock.get(c.actor) <= m.states.log(c.actor).len());
        }
        match self.states.add_change(change) {
            Ok(true) => {},
            Ok(false) => {
                let none: Vec<Diff> = Vec::new();
                assert(none.deep_view() =~= Seq::<DiffView>::empty());
                assert(self.deep_view() =~= m);
                return Ok(none);
            },
            Err(e) => {
                assert(self.deep_view() =~= m);
                return Err(e);
            },
        }
        let ghost states = self.states.deep_view();
        assert(states == m.states.extended(c));
        let ghost mid = *self;
        let mut diffs: Vec<Diff> = Vec::new();
        let mut undo_operations: Vec<Operation> = Vec::new();
        let mut new_object_ids: Vec<ObjectID> = Vec::new();
        let mut i: usize = 0;
        proof {
            assert(ops.take(0) =~= Seq::<OperationView>::empty());
            assert(diffs.deep_view() =~= Seq::<DiffView>::empty());
            assert(undo_operations.deep_view() =~= Seq::<OperationView>::empty());
            assert(new_object_ids.deep_view() =~= Seq::<ObjectIDView>::empty());
            assert(new_object_ids.deep_view().to_set() =~= Set::<ObjectIDView>::empty());
        }
        while i < operations.len()
            invariant
                i <= operations@.len(),
                ops == operations.deep_view(),
                ops == c.ops,
                c == change.deep_view(),
                c.actor == actor_id.deep_view(),
                c.seq == seq,
                m == old(self).deep_view(),
                m.wf(),
                m.states.add_change(c) == Ok::<Option<StatesView>, ErrorView>(
                    Some(states),
                ),
                states == self.states.deep_view(),
                states == m.states.extended(c),
                self.pending == mid.pending,
                self.clock == mid.clock,
                self.undo_stack == mid.undo_stack,
                self.redo_stack == mid.redo_stack,
                m.queue == mid.pending.deep_view().0,
                m.clock == mid.clock.deep_view(),
                m.undo_pos == mid.pending.deep_view().1,
                m.undo_stack == mid.undo_stack.deep_view(),
                m.redo_stack == mid.redo_stack.deep_view(),
                store_wf(self.object_store.deep_view()),
                ({
                    let p = progress(m.store, states, c, ops.take(i as int));
                    &&& p.error is None
                    &&& self.object_store.deep_view() == p.store
                    &&& diffs.deep_view() == p.diffs
                    &&& make_undoable ==> undo_operations.deep_view() == p.undo
                    &&& new_object_ids.deep_view().to_set() == p.made
                }),
            decreases operations@.len() - i,
        {
            let ghost p = progress(m.store, states, c, ops.take(i as int));
            let ghost ids = new_object_ids.deep_view();
            let ghost undo_before = undo_operations.deep_view();
            let ghost diffs_before = diffs.deep_view();
            let operation = operations[i].clone();
            let ghost ov = OpView { seq: c.seq, actor: c.actor, op: ops[i as int] };
            proof {
                assert(ops[i as int] == operation.deep_view());
                assert(ops.take(i + 1).drop_last() =~= ops.take(i as int));
                assert(progress(m.store, states, c, ops.take(i + 1)) == p.step(states, ov));
            }
            // Newly made objects are kept in mind, to decide whether what takes
            // an operation back is needed.
            if operation.makes_object() {
                let id = operation.object_id().clone();
                new_object_ids.push(id);
                proof {
                    assert(new_object_ids.deep_view() =~= ids.push(id.deep_view()));
                    ids.lemma_push_to_set_commute(id.deep_view());
                }
            }
            let op_with_metadata = OperationWithMetadata {
                sequence: seq,
                actor_id: actor_id.clone(),
                operation: operation.clone(),
            };
            assert(op_with_metadata.deep_view() == ov);
            match self.object_store.apply_operation(&self.states, op_with_metadata) {
                Ok((diff, mut undo_ops_for_this_op)) => {
                    let ghost u = undo_ops_for_this_op.deep_view();
                    if make_undoable && !has_object(&new_object_ids, operation.object_id()) {
                        undo_operations.append(&mut undo_ops_for_this_op);
                        assert(undo_operations.deep_view() =~= undo_before + u);
                    }
                    if let Some(d) = diff {
                        diffs.push(d);
                        assert(diffs.deep_view() =~= diffs_before.push(d.deep_view()));
                    }
                },
                Err(e) => {
                    proof {
                        lemma_progress_sticks(m.store, states, c, ops, i + 1);
                        let q = progress(m.store, states, c, ops);
                        assert(self.deep_view() =~= OpSetView { store: q.store, states, ..m });
                        assert forall|a: Seq<char>| #[trigger]
                            self.deep_view().clock.get(a) <= states.log(a).len() by {
                            assert(m.clock.get(a) <= m.states.log(a).len());
                        }
                    }
                    return Err(e);
                },
            }
            i += 1;
        }
        let ghost p = progress(m.store, states, c, ops);
        assert(ops.take(i as int) =~= ops);
        self.clock = self.clock.with(&actor_id, seq);
        if make_undoable {
            let ghost u = undo_operations.deep_view();
            self.undo_stack.truncate(self.pending.undo_pos);
            self.undo_stack.push(undo_operations);
            assert(self.undo_stack.len() == m.undo_pos + 1);
            self.pending.undo_pos += 1;
            assert(self.undo_stack.deep_view() =~= m.undo_stack.take(m.undo_pos as int).push(u));
        }
        proof {
            let (after, _) = m.finished(c, states, p, make_undoable);
            assert(self.deep_view() =~= after);
            assert forall|a: Seq<char>| #[trigger]
                self.deep_view().clock.get(a) <= states.log(a).len() by {
                assert(m.clock.get(a) <= m.states.log(a).len());
                assert(m.states.applied(c.actor, c.seq) is None);
            }
        }
        Ok(Self::simplify_diffs(diffs))
    }

    /// Applies the changes of the queue that are causally ready, until there is
    /// none left. Each is made undoable if it was to be when it came in.
    #[verifier::rlimit(40)]
    fn apply_causally_ready_changes(&mut self) -> (r: Result<Vec<Diff>, AutomergeError>)
        requires
            old(self).deep_view().wf(),
            old(self).deep_view().can_note(),
        ensures
            final(self).deep_view().wf(),
            ({
                let (m, d) = old(self).deep_view().run();
                &&& final(self).deep_view() == m
                &&& match d {
                    Ok(diffs) => r is Ok && r->Ok_0.deep_view() == diffs,
                    Err(e) => r is Err && r->Err_0.deep_view() == e,
                }
            }),
    {
        let ghost start = self.deep_view();
        let mut diffs: Vec<Diff> = Vec::new();
        proof {
            assert(diffs.deep_view() =~= Seq::<DiffView>::empty());
            let (_, d) = start.run();
            if let Ok(rest) = d {
                assert(diffs.deep_view() + rest =~= rest);
            }
        }
        loop
            invariant
                start == old(self).deep_view(),
                self.deep_view().wf(),
                self.deep_view().can_note(),
                ({
                    let (m, d) = start.run();
                    let (n, e) = self.deep_view().run();
                    &&& m == n
                    &&& match e {
                        Ok(rest) => d == Ok::<Seq<DiffView>, ErrorView>(
                            diffs.deep_view() + rest,
                        ),
                        Err(_) => d == e,
                    }
                }),
            decreases self.deep_view().queue.len(),
        {
            let ghost m = self.deep_view();
            match self.pop_next_causally_ready_change() {
                Some((next_change, make_undoable)) => {
                    let ghost i = m.next_ready()->Some_0;
                    proof {
                        assert(m.first_ready(i));
                        assert(m.queue[i].0.seq >= 1);
                        assert(m.queue[i] == (next_change.deep_view(), make_undoable));
                    }
                    let ghost before = diffs.deep_view();
                    match self.apply_causally_ready_change(next_change, make_undoable) {
                        Ok(mut change_diffs) => {
                            let ghost first = change_diffs.deep_view();
                            diffs.append(&mut change_diffs);
                            proof {
                                assert(diffs.deep_view() =~= before + first);
                                let (_, e) = self.deep_view().run();
                                if let Ok(rest) = e {
                                    assert(before + (first + rest) =~= diffs.deep_view() + rest);
                                }
                            }
                        },
                        Err(e) => {
                            return Err(e);
                        },
                    }
                },
                None => {
                    assert(diffs.deep_view() + Seq::<DiffView>::empty() =~= diffs.deep_view());
                    return Ok(diffs);
                },
            }
        }
    }

    /// Adds a change to the queue, then applies all causally ready changes until
    /// there are none remaining. Returns what is reported of them.
    ///
    /// If `make_undoable` is true, the operation set stores the operations with
    /// which this change can be undone, as soon as the change is applied.
    pub fn apply_change(&mut self, change: Change, make_undoable: bool) -> (r: Result<
        Vec<Diff>,
        AutomergeError,
    >)
        requires
            old(self).deep_view().wf(),
            change.seq >= 1,
            old(self).deep_view().can_note_change(change.deep_view(), make_undoable),
        ensures
            final(self).deep_view().wf(),
            old(self).deep_view().in_step() ==> final(self).deep_view().in_step(),
            ({
                let (m, d) = old(self).deep_view().receive(change.deep_view(), make_undoable);
                &&& final(self).deep_view() == m
                &&& match d {
                    Ok(diffs) => r is Ok && r->Ok_0.deep_view() == diffs,
                    Err(e) => r is Err && r->Err_0.deep_view() == e,
                }
            }),
    {
        let ghost m = self.deep_view();
        let ghost c = change.deep_view();
        self.pending.queue.push((change, make_undoable));
        proof {
            assert(self.pending.queue.deep_view() =~= m.queue.push((c, make_undoable)));
            assert(self.deep_view() =~= m.queued(c, make_undoable));
            if m.in_step() {
                lemma_run_in_step(self.deep_view());
            }
        }
        self.apply_causally_ready_changes()
    }

    /// Brings the change back that was undone last, by a change of the given
    /// actor with the given number.
    pub fn do_redo(
        &mut self,
        actor_id: ActorID,
        seq: u32,
        message: Option<String>,
        dependencies: Clock,
    ) -> (r: Result<Vec<Diff>, AutomergeError>)
        requires
            old(self).deep_view().wf(),
            old(self).deep_view().redo_stack.len() > 0 ==> {
                &&& seq >= 1
                &&& old(self).deep_view().undo_pos < usize::MAX
                &&& old(self).deep_view().can_note_redo(
                    actor_id.deep_view(),
                    seq,
                    message.deep_view(),
                    dependencies.deep_view(),
                )
            },
        ensures
            final(self).deep_view().wf(),
            old(self).deep_view().undo_pos < old(self).deep_view().undo_stack.len()
                ==> final(self).deep_view().in_step(),
            ({
                let (m, d) = old(self).deep_view().redo(
                    actor_id.deep_view(),
                    seq,
                    message.deep_view(),
                    dependencies.deep_view(),
                );
                &&& final(self).deep_view() == m
                &&& match d {
                    Ok(diffs) => r is Ok && r->Ok_0.deep_view() == diffs,
                    Err(e) => r is Err && r->Err_0.deep_view() == e,
                }
            }),
    {
        let ghost m = self.deep_view();
        match self.redo_stack.pop() {
            Some(redo_ops) => {
                let change = Change {
                    actor_id,
                    seq,
                    message,
                    dependencies,
                    operations: redo_ops,
                };
                self.pending.undo_pos += 1;
                proof {
                    assert(self.redo_stack.deep_view() =~= m.redo_stack.drop_last());
                    assert(redo_ops.deep_view() == m.redo_stack.last());
                    assert(self.deep_view() =~= m.redo_start());
                }
                self.apply_change(change, false)
            },
            None => {
                assert(self.deep_view() =~= m);
                Err(AutomergeError::InvalidChange(owned("no redo ops")))
            },
        }
    }

    /// The operations that bring back what an undo operation is about to take
    /// away.
    fn redo_ops_for(&self, op: &Operation) -> (r: Vec<Operation>)
        ensures
            r.deep_view() == redoing_one(self.deep_view().store, op.deep_view()),
    {
        let mut r: Vec<Operation> = Vec::new();
        match op {
            Operation::Increment { .. } => {
                if let Some(o) = op.opposite_increment() {
                    r.push(o);
                }
            },
            Operation::SetValue { object_id, key, .. }
            | Operation::Link { object_id, key, .. }
            | Operation::Delete { object_id, key } => {
                if let Some(cops) = self.object_store.concurrent_operations_for_field(
                    object_id,
                    key,
                ) {
                    if cops.active_op().is_some() {
                        return cops.pure_operations();
                    }
                    r.push(
                        Operation::Delete { object_id: object_id.clone(), key: key.clone() },
                    );
                }
            },
            _ => {},
        }
        assert(r.deep_view() =~= redoing_one(self.deep_view().store, op.deep_view()));
        r
    }

    /// Takes the last undoable change back, by a change of the given actor with
    /// the given number.
    pub fn do_undo(
        &mut self,
        actor_id: ActorID,
        seq: u32,
        message: Option<String>,
        dependencies: Clock,
    ) -> (r: Result<Vec<Diff>, AutomergeError>)
        requires
            old(self).deep_view().wf(),
            1 <= old(self).deep_view().undo_pos <= old(self).deep_view().undo_stack.len() ==> seq
                >= 1,
        ensures
            final(self).deep_view().wf(),
            old(self).deep_view().in_step() ==> final(self).deep_view().in_step(),
            ({
                let (m, d) = old(self).deep_view().undo(
                    actor_id.deep_view(),
                    seq,
                    message.deep_view(),
                    dependencies.deep_view(),
                );
                &&& final(self).deep_view() == m
                &&& match d {
                    Ok(diffs) => r is Ok && r->Ok_0.deep_view() == diffs,
                    Err(e) => r is Err && r->Err_0.deep_view() == e,
                }
            }),
    {
        let ghost m = self.deep_view();
        if self.pending.undo_pos == 0 || self.pending.undo_pos > self.undo_stack.len() {
            return Err(AutomergeError::InvalidChange(owned("No undo ops to execute")));
        }
        let undo_ops = self.undo_stack[self.pending.undo_pos - 1].twin();
        let ghost ops = undo_ops.deep_view();
        assert(ops == m.undo_stack[m.undo_pos - 1]);
        let mut redo_ops: Vec<Operation> = Vec::new();
        let mut i: usize = 0;
        proof {
            assert(ops.take(0) =~= Seq::<OperationView>::empty());
            assert(redo_ops.deep_view() =~= Seq::<OperationView>::empty());
        }
        while i < undo_ops.len()
            invariant
                i <= undo_ops@.len(),
                *self == *old(self),
                m == self.deep_view(),
                ops == undo_ops.deep_view(),
                redo_ops.deep_view() == redoing(m.store, ops.take(i as int)),
            decreases undo_ops@.len() - i,
        {
            let ghost before = redo_ops.deep_view();
            let mut one = self.redo_ops_for(&undo_ops[i]);
            let ghost u = one.deep_view();
            redo_ops.append(&mut one);
            proof {
                assert(ops[i as int] == undo_ops@[i as int].deep_view());
                assert(redo_ops.deep_view() =~= before + u);
                assert(ops.take(i + 1).drop_last() =~= ops.take(i as int));
            }
            i += 1;
        }
        assert(ops.take(i as int) =~= ops);
        let ghost redo = redo_ops.deep_view();
        self.redo_stack.push(redo_ops);
        let change = Change { actor_id, seq, message, dependencies, operations: undo_ops };
        self.pending.undo_pos -= 1;
        proof {
            assert(self.redo_stack.deep_view() =~= m.redo_stack.push(redo));
            assert(self.deep_view() =~= m.undo_start());
        }
        self.apply_change(change, false)
    }

    /// Removes redundant steps.
    fn simplify_diffs(diffs: Vec<Diff>) -> (r: Vec<Diff>)
        ensures
            r.deep_view() == simplified(diffs.deep_view()),
            simplified(r.deep_view()) == r.deep_view(),
    {
        let ghost all = diffs.deep_view();
        let mut diffs = diffs;
        let mut backwards: Vec<Diff> = Vec::new();
        let mut known_maxelems: AssocMap<ObjectID, u32> = AssocMap::new();
        assert(all.skip(all.len() as int) =~= Seq::<DiffView>::empty());
        assert(backwards.deep_view().reverse() =~= Seq::<DiffView>::empty());
        assert(diffs.deep_view() =~= all.take(all.len() as int));
        while diffs.len() > 0
            invariant
                diffs@.len() <= all.len(),
                diffs.deep_view() == all.take(diffs@.len() as int),
                backwards.deep_view().reverse() == simplified(all.skip(diffs@.len() as int)),
                forall|id: ObjectIDView, n: u32|
                    n > 0 ==> (lookup_or(known_maxelems@, id, 0u32) >= n <==> #[trigger] told(
                        all.skip(diffs@.len() as int),
                        id,
                        n,
                    )),
            decreases diffs@.len(),
        {
            let ghost k = diffs@.len() - 1;
            let ghost later = all.skip(k + 1);
            let ghost before = backwards.deep_view();
            let ghost known = known_maxelems@;
            let ghost now = diffs.deep_view();
            let diff = diffs.pop().unwrap();
            let ghost d = diff.deep_view();
            proof {
                assert(d == now[k as int]);
                assert(d == all[k as int]);
                assert(diffs.deep_view() =~= all.take(k as int));
                assert(all.skip(k as int) =~= seq![d] + later);
                assert(all.skip(k as int).drop_first() =~= later);
            }
            let keep = match &diff.action {
                DiffAction::MaxElem(oid, max_elem, _) => {
                    let current_max: u32 = match known_maxelems.get(oid) {
                        Some(m) => *m,
                        None => 0,
                    };
                    proof {
                        assert(current_max == lookup_or(known, oid.deep_view(), 0u32));
                        assert(*max_elem > 0 ==> (current_max >= *max_elem <==> told(
                            later,
                            oid.deep_view(),
                            *max_elem,
                        )));
                    }
                    note_counter(&mut known_maxelems, oid, *max_elem);
                    current_max < *max_elem
                },
                DiffAction::InsertSequenceElement(
                    oid,
                    _,
                    _,
                    _,
                    _,
                    ElementID::SpecificElementID(_, max_elem),
                ) => {
                    note_counter(&mut known_maxelems, oid, *max_elem);
                    true
                },
                _ => true,
            };
            proof {
                assert(keep == !redundant(d, later));
                assert forall|id: ObjectIDView, n: u32|
                    n > 0 implies (lookup_or(known_maxelems@, id, 0u32) >= n <==> #[trigger] told(
                    all.skip(k as int),
                    id,
                    n,
                )) by {
                    lemma_told_front(d, later, id, n);
                    assert(lookup_or(known, id, 0u32) >= n <==> told(later, id, n));
                    assert(lookup_or(known_maxelems@, id, 0u32) >= n <==> counter_told(d, id) >= n
                        || lookup_or(known, id, 0u32) >= n);
                }
            }
            if keep {
                backwards.push(diff);
                assert(backwards.deep_view() =~= before.push(d));
                assert(backwards.deep_view().reverse() =~= seq![d] + before.reverse());
            }
        }
        let mut result: Vec<Diff> = Vec::new();
        let ghost goal = backwards.deep_view().reverse();
        assert(all.skip(0) =~= all);
        assert(result.deep_view() + backwards.deep_view().reverse() =~= goal);
        while backwards.len() > 0
            invariant
                result.deep_view() + backwards.deep_view().reverse() == goal,
            decreases backwards@.len(),
        {
            let ghost b = backwards.deep_view();
            let ghost done = result.deep_view();
            let diff = backwards.pop().unwrap();
            let ghost d = diff.deep_view();
            result.push(diff);
            proof {
                assert(backwards.deep_view() =~= b.drop_last());
                assert(result.deep_view() =~= done.push(d));
                assert(b.reverse() =~= seq![d] + b.drop_last().reverse());
                assert(result.deep_view() + backwards.deep_view().reverse() =~= done
                    + b.reverse());
            }
        }
        assert(result.deep_view() =~= goal);
        proof {
            simplifying_twice_changes_nothing(all);
        }
        result
    }

    /// Whether there is a change that can be undone.
    pub fn can_undo(&self) -> (r: bool)
        ensures
            r == (self.deep_view().undo_pos > 0),
    {
        self.pending.undo_pos > 0
    }

    /// Whether there is room on the undo stack for one more undoable change. There
    /// is, unless more changes were redone than the undo stack holds.
    pub fn can_note_undo(&self) -> (r: bool)
        ensures
            r == self.deep_view().in_step(),
    {
        self.pending.undo_pos <= self.undo_stack.len()
    }

    /// Whether there is room on the undo stack for undoable changes that a redo
    /// makes ready.
    pub fn can_note_after_redo(&self) -> (r: bool)
        ensures
            r == (self.deep_view().undo_pos < self.deep_view().undo_stack.len()),
    {
        self.pending.undo_pos < self.undo_stack.len()
    }

    /// Whether a change waits that is to be undoable. If none does, the undo stack
    /// needs no room for what a redo makes ready.
    pub fn undoable_change_waits(&self) -> (r: bool)
        ensures
            r == self.deep_view().waits_undoable(),
    {
        let ghost m = self.deep_view();
        let mut i: usize = 0;
        while i < self.pending.queue.len()
            invariant
                i <= self.pending.queue@.len(),
                m == self.deep_view(),
                forall|j: int| 0 <= j < i ==> !(#[trigger] m.queue[j]).1,
            decreases self.pending.queue@.len() - i,
        {
            assert(m.queue[i as int].1 == self.pending.queue@[i as int].1);
            if self.pending.queue[i].1 {
                return true;
            }
            i += 1;
        }
        false
    }

    /// Whether there is a change that can be redone.
    pub fn can_redo(&self) -> (r: bool)
        ensures
            r == (self.deep_view().redo_stack.len() > 0),
    {
        !self.redo_stack.is_empty()
    }

    /// The applied changes that `since` has not seen.
    pub fn get_missing_changes(&self, since: &Clock) -> (r: Vec<&Change>)
        ensures
            r.deep_view() == self.deep_view().missing_changes(since.deep_view()),
    {
        let ghost all = self.deep_view().states.history;
        let ghost p = |c: ChangeView| c.seq > since.deep_view().get(c.actor);
        let history = self.states.changes();
        let mut r: Vec<&Change> = Vec::new();
        let mut i: usize = 0;
        proof {
            reveal(Seq::filter);
            assert(r.deep_view() =~= all.take(0).filter(p));
        }
        while i < history.len()
            invariant
                i <= history@.len(),
                all == history.deep_view(),
                p == (|c: ChangeView| c.seq > since.deep_view().get(c.actor)),
                r.deep_view() == all.take(i as int).filter(p),
            decreases history@.len() - i,
        {
            let change: &Change = &history[i];
            let ghost before = r.deep_view();
            proof {
                assert(change.deep_view() == all[i as int]);
                assert(all.take(i + 1) =~= all.take(i as int).push(all[i as int]));
                all.take(i as int).lemma_filter_push(all[i as int], p);
            }
            if change.seq > since.get(&change.actor_id) {
                r.push(change);
                assert(r.deep_view() =~= before.push(all[i as int]));
            }
            i += 1;
        }
        assert(all.take(i as int) =~= all);
        r
    }

    /// What the changes that wait need.
    pub fn get_missing_deps(&self) -> (r: Clock)
        requires
            self.deep_view().numbered(),
        ensures
            r.deep_view() == self.deep_view().missing_deps(),
    {
        let ghost q = self.deep_view().waiting();
        let mut clock = Clock::empty();
        let mut i: usize = 0;
        assert(q.take(0) =~= Seq::<ChangeView>::empty());
        while i < self.pending.queue.len()
            invariant
                i <= self.pending.queue@.len(),
                q == self.deep_view().waiting(),
                self.deep_view().numbered(),
                clock.deep_view() == needed(q.take(i as int)),
            decreases self.pending.queue@.len() - i,
        {
            let change = &self.pending.queue[i].0;
            proof {
                assert(change.deep_view() == q[i as int]);
                assert(self.deep_view().queue[i as int].0.seq >= 1);
                assert(q.take(i + 1).drop_last() =~= q.take(i as int));
            }
            clock = clock.union(&change.dependencies).with(&change.actor_id, change.seq - 1);
            i += 1;
        }
        assert(q.take(i as int) =~= q);
        clock
    }
}

} // verus!

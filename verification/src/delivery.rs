//! The operation set as a mathematical value: how changes are delivered, undone
//! and redone.

use vstd::prelude::*;

use crate::actor_states::StatesView;
use crate::clock::ClockView;
use crate::concurrent_operations::{opposite, pure_ops};
use crate::diff::{ActionView, DiffView};
use crate::error::ErrorView;
use crate::ids::{ElementIDView, ObjectIDView};
use crate::objects::{applied_op, empty_store, field_of, store_wf, stores_equal, StoreView};
use crate::protocol::{ChangeView, OpView, OperationView};

verus! {

/// The view of an operation set.
#[verifier::ext_equal]
pub struct OpSetView {
    /// The objects of the document.
    pub store: StoreView,
    /// The changes that wait for what they depend on; for each, whether it is to
    /// be undoable.
    pub queue: Seq<(ChangeView, bool)>,
    /// What was applied.
    pub clock: ClockView,
    /// How many entries of the undo stack can be undone.
    pub undo_pos: nat,
    /// For each undoable change, the operations that take it back.
    pub undo_stack: Seq<Seq<OperationView>>,
    /// For each undone change, the operations that bring it back.
    pub redo_stack: Seq<Seq<OperationView>>,
    /// The changes that were applied.
    pub states: StatesView,
}

/// What comes of a call: the operation set after it, and what is reported.
pub type Delivery = (OpSetView, Result<Seq<DiffView>, ErrorView>);

/// The counter that a step tells of a list; 0 if it tells none.
pub open spec fn counter_told(d: DiffView, list: ObjectIDView) -> u32 {
    match d.action {
        ActionView::MaxElem(id, n, _) => if id == list {
            n
        } else {
            0
        },
        ActionView::InsertSequenceElement(
            id,
            _,
            _,
            _,
            _,
            ElementIDView::SpecificElementID(_, n),
        ) => if id == list {
            n
        } else {
            0
        },
        _ => 0,
    }
}

/// Whether one of the steps tells a counter of a list that is `n` or more.
pub open spec fn told(diffs: Seq<DiffView>, list: ObjectIDView, n: u32) -> bool {
    exists|j: int| 0 <= j < diffs.len() && counter_told(#[trigger] diffs[j], list) >= n
}

/// What a step and the steps after it tell.
pub proof fn lemma_told_front(d: DiffView, later: Seq<DiffView>, id: ObjectIDView, n: u32)
    ensures
        told(seq![d] + later, id, n) <==> counter_told(d, id) >= n || told(later, id, n),
{
    let all = seq![d] + later;
    if told(all, id, n) {
        let j = choose|j: int| 0 <= j < all.len() && counter_told(#[trigger] all[j], id) >= n;
        if j > 0 {
            assert(counter_told(later[j - 1], id) >= n);
        }
    }
    if counter_told(d, id) >= n {
        assert(counter_told(all[0], id) >= n);
    }
    if told(later, id, n) {
        let j = choose|j: int| 0 <= j < later.len() && counter_told(#[trigger] later[j], id) >= n;
        assert(counter_told(all[j + 1], id) >= n);
    }
}

/// Whether a step is redundant before the steps that come after it: it reports
/// the largest counter of a list, and that counter is 0, or a later step tells
/// one that is as large.
pub open spec fn redundant(d: DiffView, later: Seq<DiffView>) -> bool {
    match d.action {
        ActionView::MaxElem(id, n, _) => n == 0 || told(later, id, n),
        _ => false,
    }
}

/// A list of steps without the redundant ones.
pub open spec fn simplified(diffs: Seq<DiffView>) -> Seq<DiffView>
    decreases diffs.len(),
{
    if diffs.len() == 0 {
        Seq::empty()
    } else {
        let later = diffs.drop_first();
        if redundant(diffs[0], later) {
            simplified(later)
        } else {
            seq![diffs[0]] + simplified(later)
        }
    }
}

/// A change on its way: what its operations have come to so far.
pub struct Progress {
    pub store: StoreView,
    pub diffs: Seq<DiffView>,
    /// The operations that take the change back.
    pub undo: Seq<OperationView>,
    /// The objects that the change made.
    pub made: Set<ObjectIDView>,
    /// Why an operation was refused, if one was.
    pub error: Option<ErrorView>,
}

impl Progress {
    /// No operation was applied yet.
    pub open spec fn start(store: StoreView) -> Progress {
        Progress {
            store,
            diffs: Seq::empty(),
            undo: Seq::empty(),
            made: Set::empty(),
            error: None,
        }
    }

    /// The next operation. What takes it back is kept unless the operation is on
    /// an object that the change itself made.
    pub open spec fn step(self, states: StatesView, op: OpView) -> Progress {
        let made = if op.op.makes() {
            self.made.insert(op.op.object())
        } else {
            self.made
        };
        match applied_op(self.store, states, op) {
            Ok((store, diff, undo)) => Progress {
                store,
                diffs: match diff {
                    Some(d) => self.diffs.push(d),
                    None => self.diffs,
                },
                undo: if made.contains(op.op.object()) {
                    self.undo
                } else {
                    self.undo + undo
                },
                made,
                error: None,
            },
            Err(e) => Progress { made, error: Some(e), ..self },
        }
    }
}

/// What the operations of a change come to, one after the other, up to the
/// first that is refused.
pub open spec fn progress(
    store: StoreView,
    states: StatesView,
    c: ChangeView,
    ops: Seq<OperationView>,
) -> Progress
    decreases ops.len(),
{
    if ops.len() == 0 {
        Progress::start(store)
    } else {
        let p = progress(store, states, c, ops.drop_last());
        if p.error is Some {
            p
        } else {
            p.step(states, OpView { seq: c.seq, actor: c.actor, op: ops.last() })
        }
    }
}

impl OpSetView {
    /// Where nothing came yet.
    pub open spec fn init() -> OpSetView {
        OpSetView {
            store: empty_store(),
            queue: Seq::empty(),
            clock: ClockView::none(),
            undo_pos: 0,
            undo_stack: Seq::empty(),
            redo_stack: Seq::empty(),
            states: StatesView::none(),
        }
    }

    /// Whether two operation sets are equal. The order in which the fields of a
    /// map were first written does not count.
    pub open spec fn equals(self, other: OpSetView) -> bool {
        &&& stores_equal(self.store, other.store)
        &&& self.queue == other.queue
        &&& self.clock == other.clock
        &&& self.undo_pos == other.undo_pos
        &&& self.undo_stack == other.undo_stack
        &&& self.redo_stack == other.redo_stack
        &&& self.states == other.states
    }

    /// The changes that wait have numbers.
    pub open spec fn numbered(self) -> bool {
        forall|i: int| 0 <= i < self.queue.len() ==> (#[trigger] self.queue[i]).0.seq >= 1
    }

    /// Whether a change waits that is to be undoable.
    pub open spec fn waits_undoable(self) -> bool {
        exists|i: int| 0 <= i < self.queue.len() && (#[trigger] self.queue[i]).1
    }

    /// The objects are in order, the changes that wait have numbers, and the
    /// clock has seen nothing that was not applied.
    pub open spec fn wf(self) -> bool {
        &&& store_wf(self.store)
        &&& self.numbered()
        &&& forall|a: Seq<char>| #[trigger] self.clock.get(a) <= self.states.log(a).len()
    }

    /// Whether all that a change needs was applied.
    pub open spec fn ready(self, c: ChangeView) -> bool {
        c.needs().within(self.clock)
    }

    /// The change at `i` is the first in the queue that is ready.
    pub open spec fn first_ready(self, i: int) -> bool {
        &&& 0 <= i < self.queue.len()
        &&& self.ready(self.queue[i].0)
        &&& forall|j: int| 0 <= j < i ==> !self.ready((#[trigger] self.queue[j]).0)
    }

    /// The place in the queue of the first change that is ready.
    pub open spec fn next_ready(self) -> Option<int> {
        if exists|i: int| self.first_ready(i) {
            Some(choose|i: int| self.first_ready(i))
        } else {
            None
        }
    }

    /// The operation set with a change taken out of the queue.
    pub open spec fn without(self, i: int) -> OpSetView {
        OpSetView { queue: self.queue.remove(i), ..self }
    }

    /// What a change that is ready comes to, given the states with it added and
    /// what its operations came to.
    pub open spec fn finished(
        self,
        c: ChangeView,
        states: StatesView,
        p: Progress,
        undoable: bool,
    ) -> Delivery {
        match p.error {
            Some(e) => (OpSetView { store: p.store, states, ..self }, Err(e)),
            None => (
                OpSetView {
                    store: p.store,
                    states,
                    clock: self.clock.with(c.actor, c.seq),
                    undo_stack: if undoable {
                        self.undo_stack.take(self.undo_pos as int).push(p.undo)
                    } else {
                        self.undo_stack
                    },
                    undo_pos: if undoable {
                        self.undo_pos + 1
                    } else {
                        self.undo_pos
                    },
                    ..self
                },
                Ok(simplified(p.diffs)),
            ),
        }
    }

    /// What a change that is ready comes to. One that was applied before is
    /// ignored.
    pub open spec fn apply_ready(self, c: ChangeView, undoable: bool) -> Delivery {
        match self.states.add_change(c) {
            Err(e) => (self, Err(e)),
            Ok(None) => (self, Ok(Seq::empty())),
            Ok(Some(states)) => self.finished(
                c,
                states,
                progress(self.store, states, c, c.ops),
                undoable,
            ),
        }
    }

    /// Applies changes that are ready, one after the other, until none is or one
    /// is refused. Each is undoable if it was to be when it came in.
    pub open spec fn run(self) -> Delivery
        decreases self.queue.len(),
    {
        match self.next_ready() {
            None => (self, Ok(Seq::empty())),
            Some(i) => {
                let (c, undoable) = self.queue[i];
                let (m, r) = self.without(i).apply_ready(c, undoable);
                match r {
                    Err(e) => (m, Err(e)),
                    Ok(first) => {
                        let (last, rest) = m.run();
                        match rest {
                            Ok(rest) => (last, Ok(first + rest)),
                            Err(e) => (last, Err(e)),
                        }
                    },
                }
            },
        }
    }

    /// The operation set with a change put at the end of the queue.
    pub open spec fn queued(self, c: ChangeView, undoable: bool) -> OpSetView {
        OpSetView { queue: self.queue.push((c, undoable)), ..self }
    }

    /// What a change that comes in does.
    pub open spec fn receive(self, c: ChangeView, undoable: bool) -> Delivery {
        self.queued(c, undoable).run()
    }

    /// The undo stack holds all changes that can be undone. Then there is room
    /// on it for a new one.
    pub open spec fn in_step(self) -> bool {
        self.undo_pos <= self.undo_stack.len()
    }

    /// Whether a change that is ready is noted on the undo stack: it is to be
    /// undoable, is new and is not refused.
    pub open spec fn notes(self, c: ChangeView, undoable: bool) -> bool {
        undoable && match self.states.add_change(c) {
            Ok(Some(states)) => progress(self.store, states, c, c.ops).error is None,
            _ => false,
        }
    }

    /// Whether a run notes no change on the undo stack.
    pub open spec fn notes_nothing(self) -> bool
        decreases self.queue.len(),
    {
        match self.next_ready() {
            None => true,
            Some(i) => {
                let m = self.without(i);
                let (c, undoable) = self.queue[i];
                &&& !m.notes(c, undoable)
                &&& match m.apply_ready(c, undoable) {
                    (next, Ok(_)) => next.notes_nothing(),
                    _ => true,
                }
            },
        }
    }

    /// Whether there is room on the undo stack for each change that a run notes
    /// there. There is, if the operation set is in step.
    pub open spec fn can_note(self) -> bool
        decreases self.queue.len(),
    {
        ||| self.in_step()
        ||| match self.next_ready() {
            None => true,
            Some(i) => {
                let m = self.without(i);
                let (c, undoable) = self.queue[i];
                &&& !m.notes(c, undoable)
                &&& match m.apply_ready(c, undoable) {
                    (next, Ok(_)) => next.can_note(),
                    _ => true,
                }
            },
        }
    }

    /// Whether a change that comes in, and those that it makes ready, find room
    /// on the undo stack.
    pub open spec fn can_note_change(self, c: ChangeView, undoable: bool) -> bool {
        self.queued(c, undoable).can_note()
    }

    /// What an undo starts from: the operations that bring back what it takes
    /// away are noted on the redo stack.
    pub open spec fn undo_start(self) -> OpSetView {
        OpSetView {
            redo_stack: self.redo_stack.push(
                redoing(self.store, self.undo_stack[self.undo_pos - 1]),
            ),
            undo_pos: (self.undo_pos - 1) as nat,
            ..self
        }
    }

    /// What undoing the last undoable change does. The operations of the change
    /// that undoes it are those noted on the undo stack.
    pub open spec fn undo(
        self,
        actor: Seq<char>,
        seq: u32,
        message: Option<Seq<char>>,
        deps: ClockView,
    ) -> Delivery {
        if 1 <= self.undo_pos <= self.undo_stack.len() {
            let ops = self.undo_stack[self.undo_pos - 1];
            self.undo_start().receive(ChangeView { actor, seq, message, deps, ops }, false)
        } else {
            (self, Err(ErrorView::InvalidChange("No undo ops to execute"@)))
        }
    }

    /// What a redo starts from.
    pub open spec fn redo_start(self) -> OpSetView {
        OpSetView {
            redo_stack: self.redo_stack.drop_last(),
            undo_pos: self.undo_pos + 1,
            ..self
        }
    }

    /// What redoing the change that was undone last does.
    pub open spec fn redo(
        self,
        actor: Seq<char>,
        seq: u32,
        message: Option<Seq<char>>,
        deps: ClockView,
    ) -> Delivery {
        if self.redo_stack.len() > 0 {
            let ops = self.redo_stack.last();
            self.redo_start().receive(ChangeView { actor, seq, message, deps, ops }, false)
        } else {
            (self, Err(ErrorView::InvalidChange("no redo ops"@)))
        }
    }

    /// Whether the changes that a redo makes ready find room on the undo stack.
    pub open spec fn can_note_redo(
        self,
        actor: Seq<char>,
        seq: u32,
        message: Option<Seq<char>>,
        deps: ClockView,
    ) -> bool {
        let ops = self.redo_stack.last();
        self.redo_start().can_note_change(ChangeView { actor, seq, message, deps, ops }, false)
    }

    /// The applied changes that `since` has not seen.
    pub open spec fn missing_changes(self, since: ClockView) -> Seq<ChangeView> {
        self.states.history.filter(|c: ChangeView| c.seq > since.get(c.actor))
    }

    /// The changes that wait, in the order in which they came.
    pub open spec fn waiting(self) -> Seq<ChangeView> {
        self.queue.map_values(|e: (ChangeView, bool)| e.0)
    }

    /// What the changes that wait need.
    pub open spec fn missing_deps(self) -> ClockView {
        needed(self.waiting())
    }
}

/// A run keeps an operation set in step.
pub proof fn lemma_run_in_step(m: OpSetView)
    requires
        m.in_step(),
    ensures
        m.run().0.in_step(),
    decreases m.queue.len(),
{
    if let Some(i) = m.next_ready() {
        assert(m.first_ready(i));
        let (c, undoable) = m.queue[i];
        let (next, r) = m.without(i).apply_ready(c, undoable);
        if r is Ok {
            lemma_run_in_step(next);
        }
    }
}

/// Where no change that waits is to be undoable, a run notes nothing, and there
/// is room for that.
pub proof fn lemma_nothing_to_note(m: OpSetView)
    requires
        forall|i: int| 0 <= i < m.queue.len() ==> !(#[trigger] m.queue[i]).1,
    ensures
        m.notes_nothing(),
        m.can_note(),
    decreases m.queue.len(),
{
    if let Some(i) = m.next_ready() {
        assert(m.first_ready(i));
        let (c, undoable) = m.queue[i];
        let w = m.without(i);
        let (next, r) = w.apply_ready(c, undoable);
        assert(!m.queue[i].1);
        if r is Ok {
            assert forall|j: int| 0 <= j < next.queue.len() implies !(
            #[trigger] next.queue[j]).1 by {
                let k = if j < i {
                    j
                } else {
                    j + 1
                };
                assert(next.queue[j] == m.queue[k]);
            }
            lemma_nothing_to_note(next);
        }
    }
}

/// Where no change that waits is to be undoable, there is room on the undo stack
/// for what a redo, or a change that is not undoable, makes ready.
pub proof fn no_room_is_needed_where_nothing_undoable_waits(m: OpSetView, c: ChangeView)
    requires
        !m.waits_undoable(),
    ensures
        m.can_note_change(c, false),
        c.ops == m.redo_stack.last() ==> m.can_note_redo(c.actor, c.seq, c.message, c.deps),
{
    let q = m.queued(c, false);
    assert forall|i: int| 0 <= i < q.queue.len() implies !(#[trigger] q.queue[i]).1 by {
        if i < m.queue.len() {
            assert(q.queue[i] == m.queue[i]);
        }
    }
    lemma_nothing_to_note(q);
    lemma_nothing_to_note(m.redo_start().queued(c, false));
}

/// What the changes of a list need.
pub open spec fn needed(queue: Seq<ChangeView>) -> ClockView
    decreases queue.len(),
{
    if queue.len() == 0 {
        ClockView::none()
    } else {
        let c = queue.last();
        needed(queue.drop_last()).union(c.deps).with(c.actor, (c.seq - 1) as u32)
    }
}

/// The operations that bring back what an undo operation is about to take away:
/// the opposite increment; or else what the field holds, or its deletion if it
/// holds nothing. For a field for which no operation came, and for other
/// operations, there are none.
pub open spec fn redoing_one(store: StoreView, op: OperationView) -> Seq<OperationView> {
    match op {
        OperationView::Increment { object_id, key, value } => seq![
            OperationView::Increment { object_id, key, value: opposite(value) },
        ],
        OperationView::SetValue { .. }
        | OperationView::Link { .. }
        | OperationView::Delete { .. } => match field_of(store, op.object(), op.field()) {
            Some(field) => if field.len() > 0 {
                pure_ops(field)
            } else {
                seq![OperationView::Delete { object_id: op.object(), key: op.field() }]
            },
            None => Seq::empty(),
        },
        _ => Seq::empty(),
    }
}

/// The operations that bring back what a list of undo operations is about to
/// take away.
pub open spec fn redoing(store: StoreView, ops: Seq<OperationView>) -> Seq<OperationView>
    decreases ops.len(),
{
    if ops.len() == 0 {
        Seq::empty()
    } else {
        redoing(store, ops.drop_last()) + redoing_one(store, ops.last())
    }
}

} // verus!

//! The operations that hold in a field at the same time.

use vstd::prelude::*;

use crate::actor_states::{ActorStates, StatesView};
use crate::diff::{Conflict, ConflictView, ElementValue};
use crate::ids::{Ident, Twin};
use crate::protocol::{
    DataType, OpView, Operation, OperationView, OperationWithMetadata, PrimitiveValue,
    PrimitiveView,
};
use crate::text::{text_less, text_lt};

verus! {

/// The operations that hold in a field: those that no later one has replaced.
/// They are kept by actor, from the last to the first in the order of actors,
/// and the first of them is the one that is shown.
#[derive(Debug)]
pub struct ConcurrentOperations {
    operations: Vec<OperationWithMetadata>,
}

impl DeepView for ConcurrentOperations {
    type V = Seq<OpView>;

    closed spec fn deep_view(&self) -> Seq<OpView> {
        self.operations.deep_view()
    }
}

impl Clone for ConcurrentOperations {
    fn clone(&self) -> (r: Self)
        ensures
            r.deep_view() == self.deep_view(),
    {
        ConcurrentOperations { operations: self.operations.twin() }
    }
}

impl Twin for ConcurrentOperations {
    fn twin(&self) -> (r: Self) {
        self.clone()
    }
}

impl Ident for ConcurrentOperations {
    fn same(&self, other: &Self) -> (r: bool) {
        self.operations.same(&other.operations)
    }
}

impl PartialEq for ConcurrentOperations {
    fn eq(&self, other: &Self) -> (r: bool) {
        self.same(other)
    }
}

impl vstd::std_specs::cmp::PartialEqSpecImpl for ConcurrentOperations {
    open spec fn obeys_eq_spec() -> bool {
        true
    }

    open spec fn eq_spec(&self, other: &Self) -> bool {
        self.deep_view() == other.deep_view()
    }
}

/// Only operations that give a field a value are kept in it.
pub open spec fn all_assign(field: Seq<OpView>) -> bool {
    forall|i: int| 0 <= i < field.len() ==> (#[trigger] field[i]).op.assigns()
}

/// The operations of a field, without the changes that they came in.
pub open spec fn pure_ops(field: Seq<OpView>) -> Seq<OperationView> {
    field.map_values(|o: OpView| o.op)
}

/// The values of a field that lost to the one that is shown.
pub open spec fn conflicts_of(field: Seq<OpView>) -> Seq<ConflictView> {
    if field.len() == 0 {
        Seq::empty()
    } else {
        field.skip(1).map_values(|o: OpView| o.as_conflict())
    }
}

/// `by` added to `n`, around the ends of the 64-bit range.
pub open spec fn wrapped_sum(n: i64, by: i64) -> i64 {
    n.wrapping_add(by)
}

/// The amount that takes an increment by `n` back.
pub open spec fn opposite(n: i64) -> i64 {
    0i64.wrapping_sub(n)
}

impl OperationView {
    /// The operation after an increment: a counter takes the amount up, anything
    /// else stays as it is.
    pub open spec fn incremented(self, by: i64) -> OperationView {
        match self {
            OperationView::SetValue {
                object_id,
                key,
                value: PrimitiveView::Number(n),
                datatype: Some(DataType::Counter),
            } => OperationView::SetValue {
                object_id,
                key,
                value: PrimitiveView::Number(wrapped_sum(n, by)),
                datatype: Some(DataType::Counter),
            },
            _ => self,
        }
    }
}

/// A field with an operation put in its place: after the operations of later
/// actors and before all others.
pub open spec fn placed(field: Seq<OpView>, new: OpView) -> Seq<OpView> {
    field.filter(|o: OpView| text_lt(new.actor, o.actor)) + seq![new] + field.filter(
        |o: OpView| !text_lt(new.actor, o.actor),
    )
}

/// A field after a new operation on it. An increment changes the counters that
/// its change builds on. Any other operation replaces all operations that are
/// not concurrent with it, and itself stays if it gives the field a value.
pub open spec fn incorporated(states: StatesView, field: Seq<OpView>, new: OpView) -> Seq<OpView> {
    match new.op {
        OperationView::Increment { value, .. } => field.map_values(
            |o: OpView|
                if states.concurrent(o, new) {
                    o
                } else {
                    OpView { op: o.op.incremented(value), ..o }
                },
        ),
        _ => {
            let kept = field.filter(|o: OpView| states.concurrent(o, new));
            if new.op.assigns() {
                placed(kept, new)
            } else {
                kept
            }
        },
    }
}

/// A field of values stays one.
pub proof fn lemma_incorporated_assigns(states: StatesView, field: Seq<OpView>, new: OpView)
    requires
        all_assign(field),
    ensures
        all_assign(incorporated(states, field, new)),
{
    let after = incorporated(states, field, new);
    if !(new.op is Increment) {
        let p = |o: OpView| states.concurrent(o, new);
        let kept = field.filter(p);
        lemma_filter_assigns(field, p);
        if new.op.assigns() {
            lemma_filter_assigns(kept, |o: OpView| text_lt(new.actor, o.actor));
            lemma_filter_assigns(kept, |o: OpView| !text_lt(new.actor, o.actor));
        }
    }
}

proof fn lemma_filter_assigns(field: Seq<OpView>, p: spec_fn(OpView) -> bool)
    requires
        all_assign(field),
    ensures
        all_assign(field.filter(p)),
{
    let kept = field.filter(p);
    assert forall|i: int| 0 <= i < kept.len() implies (#[trigger] kept[i]).op.assigns() by {
        assert(kept.contains(kept[i]));
        field.lemma_filter_contains_rev(p, kept[i]);
        let j = choose|j: int| 0 <= j < field.len() && field[j] == kept[i];
        assert(field[j].op.assigns());
    }
}

/// The operations that take a new operation on a field back: the opposite
/// increment, or else what the field held, or its deletion if it held nothing.
pub open spec fn undoing(field: Seq<OpView>, new: OperationView) -> Seq<OperationView> {
    match new {
        OperationView::Increment { object_id, key, value } => seq![
            OperationView::Increment { object_id, key, value: opposite(value) },
        ],
        _ => if field.len() == 0 {
            seq![OperationView::Delete { object_id: new.object(), key: new.field() }]
        } else {
            pure_ops(field)
        },
    }
}

impl Operation {
    /// The operation that takes this increment back.
    pub fn opposite_increment(&self) -> (r: Option<Operation>)
        ensures
            match self.deep_view() {
                OperationView::Increment { object_id, key, value } => r is Some
                    && r->Some_0.deep_view() == (OperationView::Increment {
                    object_id,
                    key,
                    value: opposite(value),
                }),
                _ => r is None,
            },
    {
        match self {
            Operation::Increment { object_id, key, value } => Some(
                Operation::Increment {
                    object_id: object_id.clone(),
                    key: key.clone(),
                    value: 0i64.wrapping_sub(*value),
                },
            ),
            _ => None,
        }
    }

    /// The deletion of the field that this operation changes.
    fn deletion(&self) -> (r: Operation)
        requires
            self.deep_view().mutates(),
        ensures
            r.deep_view() == (OperationView::Delete {
                object_id: self.deep_view().object(),
                key: self.deep_view().field(),
            }),
    {
        match self {
            Operation::SetValue { object_id, key, .. }
            | Operation::Link { object_id, key, .. }
            | Operation::Delete { object_id, key }
            | Operation::Increment { object_id, key, .. } => Operation::Delete {
                object_id: object_id.clone(),
                key: key.clone(),
            },
            _ => self.clone(),
        }
    }

    /// This operation after an increment.
    fn after_increment(&self, by: i64) -> (r: Operation)
        ensures
            r.deep_view() == self.deep_view().incremented(by),
    {
        match self {
            Operation::SetValue {
                object_id,
                key,
                value: PrimitiveValue::Number(n),
                datatype: Some(DataType::Counter),
            } => Operation::SetValue {
                object_id: object_id.clone(),
                key: key.clone(),
                value: PrimitiveValue::Number(n.wrapping_add(by)),
                datatype: Some(DataType::Counter),
            },
            _ => self.clone(),
        }
    }

    /// The value that this operation gives a field.
    pub fn value_given(&self) -> (r: ElementValue)
        requires
            self.deep_view().assigns(),
        ensures
            r.deep_view() == self.deep_view().value_given(),
    {
        match self {
            Operation::SetValue { value, .. } => ElementValue::Primitive(value.clone()),
            Operation::Link { value, .. } => ElementValue::Link(value.clone()),
            _ => ElementValue::Primitive(PrimitiveValue::Null),
        }
    }

    /// How the value that this operation gives a field is to be read.
    pub fn datatype_given(&self) -> (r: Option<DataType>)
        ensures
            r == self.deep_view().datatype_given(),
    {
        match self {
            Operation::SetValue { datatype, .. } => *datatype,
            _ => None,
        }
    }
}

impl ConcurrentOperations {
    /// An empty field.
    pub fn new() -> (r: ConcurrentOperations)
        ensures
            r.deep_view() == Seq::<OpView>::empty(),
    {
        let r = ConcurrentOperations { operations: Vec::new() };
        assert(r.deep_view() =~= Seq::<OpView>::empty());
        r
    }

    /// The operation whose value is shown.
    pub fn active_op(&self) -> (r: Option<&OperationWithMetadata>)
        ensures
            match r {
                Some(o) => self.deep_view().len() > 0 && o.deep_view() == self.deep_view()[0],
                None => self.deep_view().len() == 0,
            },
    {
        if self.operations.len() > 0 {
            Some(&self.operations[0])
        } else {
            None
        }
    }

    /// The values that lost to the one that is shown.
    pub fn conflicts(&self) -> (r: Vec<Conflict>)
        requires
            all_assign(self.deep_view()),
        ensures
            r.deep_view() == conflicts_of(self.deep_view()),
    {
        let ghost field = self.deep_view();
        let mut r: Vec<Conflict> = Vec::new();
        let mut i: usize = 1;
        while i < self.operations.len()
            invariant
                1 <= i,
                field == self.deep_view(),
                all_assign(field),
                i <= self.operations@.len() || (self.operations@.len() == 0 && i == 1),
                r@.len() == i - 1,
                forall|j: int| 0 <= j < i - 1 ==> r.deep_view()[j] == field[j + 1].as_conflict(),
            decreases self.operations@.len() - i,
        {
            let o = &self.operations[i];
            assert(o.deep_view() == field[i as int]);
            let ghost before = r.deep_view();
            let c = Conflict {
                actor: o.actor_id.clone(),
                value: o.operation.value_given(),
                datatype: o.operation.datatype_given(),
            };
            assert(c.deep_view() == field[i as int].as_conflict());
            r.push(c);
            assert(r.deep_view() =~= before.push(c.deep_view()));
            i += 1;
        }
        assert(r.deep_view() =~= conflicts_of(field));
        r
    }

    /// The operations, without the changes that they came in.
    pub fn pure_operations(&self) -> (r: Vec<Operation>)
        ensures
            r.deep_view() == pure_ops(self.deep_view()),
    {
        let mut r: Vec<Operation> = Vec::new();
        let mut i: usize = 0;
        while i < self.operations.len()
            invariant
                i <= self.operations@.len(),
                r.deep_view() == pure_ops(self.deep_view()).take(i as int),
            decreases self.operations@.len() - i,
        {
            let ghost before = r.deep_view();
            let o = self.operations[i].operation.clone();
            r.push(o);
            assert(r.deep_view() =~= before.push(o.deep_view()));
            assert(r.deep_view() =~= pure_ops(self.deep_view()).take(i + 1));
            i += 1;
        }
        assert(r.deep_view() =~= pure_ops(self.deep_view()));
        r
    }

    /// The operations of a field after an increment.
    fn count(&self, states: &ActorStates, new_op: &OperationWithMetadata, by: i64) -> (r: Vec<
        OperationWithMetadata,
    >)
        requires
            new_op.deep_view().op matches OperationView::Increment { value, .. } && value == by,
        ensures
            r.deep_view() == incorporated(
                states.deep_view(),
                self.deep_view(),
                new_op.deep_view(),
            ),
    {
        let ghost goal = incorporated(states.deep_view(), self.deep_view(), new_op.deep_view());
        let mut r: Vec<OperationWithMetadata> = Vec::new();
        let mut i: usize = 0;
        while i < self.operations.len()
            invariant
                i <= self.operations@.len(),
                new_op.deep_view().op matches OperationView::Increment { value, .. } && value == by,
                goal == incorporated(states.deep_view(), self.deep_view(), new_op.deep_view()),
                r.deep_view() == goal.take(i as int),
            decreases self.operations@.len() - i,
        {
            let ghost before = r.deep_view();
            let o = &self.operations[i];
            assert(o.deep_view() == self.deep_view()[i as int]);
            let n = if states.is_concurrent(o, new_op) {
                o.clone()
            } else {
                OperationWithMetadata {
                    sequence: o.sequence,
                    actor_id: o.actor_id.clone(),
                    operation: o.operation.after_increment(by),
                }
            };
            assert(n.deep_view() == goal[i as int]);
            r.push(n);
            assert(r.deep_view() =~= before.push(n.deep_view()));
            assert(r.deep_view() =~= goal.take(i + 1));
            i += 1;
        }
        assert(r.deep_view() =~= goal);
        r
    }

    /// The operations of a field that are concurrent with a new one.
    fn survivors(&self, states: &ActorStates, new_op: &OperationWithMetadata) -> (r: Vec<
        OperationWithMetadata,
    >)
        ensures
            r.deep_view() == self.deep_view().filter(
                |o: OpView| states.deep_view().concurrent(o, new_op.deep_view()),
            ),
    {
        let ghost field = self.deep_view();
        let ghost p = |o: OpView| states.deep_view().concurrent(o, new_op.deep_view());
        let mut r: Vec<OperationWithMetadata> = Vec::new();
        let mut i: usize = 0;
        proof {
            reveal(Seq::filter);
            assert(r.deep_view() =~= field.take(0).filter(p));
        }
        while i < self.operations.len()
            invariant
                i <= self.operations@.len(),
                field == self.deep_view(),
                p == (|o: OpView| states.deep_view().concurrent(o, new_op.deep_view())),
                r.deep_view() == field.take(i as int).filter(p),
            decreases self.operations@.len() - i,
        {
            let ghost before = r.deep_view();
            let o = &self.operations[i];
            proof {
                assert(o.deep_view() == field[i as int]);
                assert(field.take(i + 1) =~= field.take(i as int).push(field[i as int]));
                field.take(i as int).lemma_filter_push(field[i as int], p);
            }
            if states.is_concurrent(o, new_op) {
                r.push(o.clone());
                assert(r.deep_view() =~= before.push(o.deep_view()));
            }
            i += 1;
        }
        assert(field.take(i as int) =~= field);
        r
    }

    /// The operations of a list that were made by actors after `new_op`'s, or
    /// those that were not.
    fn by_actor(v: &Vec<OperationWithMetadata>, new_op: &OperationWithMetadata, later: bool) -> (r:
        Vec<OperationWithMetadata>)
        ensures
            r.deep_view() == v.deep_view().filter(
                |o: OpView| text_lt(new_op.deep_view().actor, o.actor) == later,
            ),
    {
        let ghost field = v.deep_view();
        let ghost p = |o: OpView| text_lt(new_op.deep_view().actor, o.actor) == later;
        let mut r: Vec<OperationWithMetadata> = Vec::new();
        let mut i: usize = 0;
        proof {
            reveal(Seq::filter);
            assert(r.deep_view() =~= field.take(0).filter(p));
        }
        while i < v.len()
            invariant
                i <= v@.len(),
                field == v.deep_view(),
                p == (|o: OpView| text_lt(new_op.deep_view().actor, o.actor) == later),
                r.deep_view() == field.take(i as int).filter(p),
            decreases v@.len() - i,
        {
            let ghost before = r.deep_view();
            proof {
                assert(v@[i as int].deep_view() == field[i as int]);
                assert(field.take(i + 1) =~= field.take(i as int).push(field[i as int]));
                field.take(i as int).lemma_filter_push(field[i as int], p);
            }
            if text_less(new_op.actor_id.0.as_str(), v[i].actor_id.0.as_str()) == later {
                let o = v[i].clone();
                r.push(o);
                assert(r.deep_view() =~= before.push(o.deep_view()));
            }
            i += 1;
        }
        assert(field.take(i as int) =~= field);
        r
    }

    /// Takes a new operation on the field in, and returns the operations that
    /// take it back.
    pub fn incorporate_new_op(
        &mut self,
        new_op: OperationWithMetadata,
        states: &ActorStates,
    ) -> (r: Vec<Operation>)
        requires
            new_op.deep_view().op.mutates(),
        ensures
            final(self).deep_view() == incorporated(
                states.deep_view(),
                old(self).deep_view(),
                new_op.deep_view(),
            ),
            r.deep_view() == undoing(old(self).deep_view(), new_op.deep_view().op),
    {
        let ghost field = self.deep_view();
        let ghost new = new_op.deep_view();
        if let Operation::Increment { value, .. } = &new_op.operation {
            let by: i64 = *value;
            self.operations = self.count(states, &new_op, by);
            let mut undo: Vec<Operation> = Vec::new();
            if let Some(o) = new_op.operation.opposite_increment() {
                undo.push(o);
            }
            assert(undo.deep_view() =~= undoing(field, new.op));
            return undo;
        }
        let undo = if self.operations.len() == 0 {
            let mut undo: Vec<Operation> = Vec::new();
            undo.push(new_op.operation.deletion());
            assert(undo.deep_view() =~= undoing(field, new.op));
            undo
        } else {
            self.pure_operations()
        };
        let kept = self.survivors(states, &new_op);
        let assigns = match &new_op.operation {
            Operation::SetValue { .. } | Operation::Link { .. } => true,
            _ => false,
        };
        if assigns {
            let ghost k = kept.deep_view();
            let mut all = Self::by_actor(&kept, &new_op, true);
            let mut rest = Self::by_actor(&kept, &new_op, false);
            proof {
                assert((|o: OpView| text_lt(new.actor, o.actor) == true) =~= (|o: OpView|
                    text_lt(new.actor, o.actor)));
                assert((|o: OpView| text_lt(new.actor, o.actor) == false) =~= (|o: OpView|
                    !text_lt(new.actor, o.actor)));
            }
            let ghost a = all.deep_view();
            let ghost b = rest.deep_view();
            all.push(new_op);
            all.append(&mut rest);
            assert(all.deep_view() =~= a + seq![new] + b);
            self.operations = all;
        } else {
            self.operations = kept;
        }
        undo
    }
}

} // verus!

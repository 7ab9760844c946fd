//! How values are seen in contracts, and when two of them are equal.

use vstd::prelude::*;
use vstd::std_specs::cmp::PartialEqSpec;

use crate::actor_states::ActorStates;
use crate::clock::Clock;
use crate::concurrent_operations::ConcurrentOperations;
use crate::diff::{
    ActionView, Conflict, Diff, DiffAction, ElementValue, ValueView,
};
use crate::error::{AutomergeError, ErrorView};
use crate::ids::{ActorID, ElementID, ElementIDView, Key, ObjectID, ObjectIDView};
use crate::object_store::{ListState, MapState, ObjectState, ObjectStore};
use crate::objects::ObjectView;
use crate::op_set::OpSet;
use crate::protocol::{
    Change, Operation, OperationView, OperationWithMetadata, PrimitiveValue, PrimitiveView,
};

verus! {

/// IDs are seen as what they are written with.
pub proof fn ids_are_seen_as_written(actor: ActorID, key: Key, id: ObjectID, e: ElementID)
    ensures
        actor.deep_view() == actor.0@,
        key.deep_view() == key.0@,
        match (id, id.deep_view()) {
            (ObjectID::Root, ObjectIDView::Root) => true,
            (ObjectID::ID(s), ObjectIDView::ID(t)) => t == s@,
            _ => false,
        },
        match (e, e.deep_view()) {
            (ElementID::Head, ElementIDView::Head) => true,
            (
                ElementID::SpecificElementID(a, n),
                ElementIDView::SpecificElementID(b, m),
            ) => b == a.0@ && m == n,
            _ => false,
        },
{
}

/// Values are seen as what they are: a text, a number, a truth value, nothing, or
/// a reference to an object.
pub proof fn values_are_seen_as_written(value: ElementValue)
    ensures
        match (value, value.deep_view()) {
            (ElementValue::Link(id), ValueView::Link(x)) => x == id.deep_view(),
            (
                ElementValue::Primitive(PrimitiveValue::Str(s)),
                ValueView::Primitive(PrimitiveView::Str(t)),
            ) => t == s@,
            (
                ElementValue::Primitive(PrimitiveValue::Number(n)),
                ValueView::Primitive(PrimitiveView::Number(m)),
            ) => m == n,
            (
                ElementValue::Primitive(PrimitiveValue::Boolean(b)),
                ValueView::Primitive(PrimitiveView::Boolean(c)),
            ) => c == b,
            (
                ElementValue::Primitive(PrimitiveValue::Null),
                ValueView::Primitive(PrimitiveView::Null),
            ) => true,
            _ => false,
        },
{
}

/// An operation is seen as what it is, with all that is written in it.
pub proof fn operations_are_seen_as_written(op: Operation)
    ensures
        match (op, op.deep_view()) {
            (Operation::MakeMap { object_id: a }, OperationView::MakeMap { object_id: b }) => b
                == a.deep_view(),
            (Operation::MakeList { object_id: a }, OperationView::MakeList { object_id: b }) => b
                == a.deep_view(),
            (Operation::MakeText { object_id: a }, OperationView::MakeText { object_id: b }) => b
                == a.deep_view(),
            (Operation::MakeTable { object_id: a }, OperationView::MakeTable { object_id: b }) => b
                == a.deep_view(),
            (
                Operation::Insert { list_id: a, key: e, elem: m },
                OperationView::Insert { list_id: b, key: f, elem: n },
            ) => b == a.deep_view() && f == e.deep_view() && n == m,
            (
                Operation::SetValue { object_id: a, key: j, value: v, datatype: s },
                OperationView::SetValue { object_id: b, key: k, value: w, datatype: t },
            ) => b == a.deep_view() && k == j.deep_view() && w == v.deep_view() && t == s,
            (
                Operation::Link { object_id: a, key: j, value: v },
                OperationView::Link { object_id: b, key: k, value: w },
            ) => b == a.deep_view() && k == j.deep_view() && w == v.deep_view(),
            (
                Operation::Delete { object_id: a, key: j },
                OperationView::Delete { object_id: b, key: k },
            ) => b == a.deep_view() && k == j.deep_view(),
            (
                Operation::Increment { object_id: a, key: j, value: m },
                OperationView::Increment { object_id: b, key: k, value: n },
            ) => b == a.deep_view() && k == j.deep_view() && n == m,
            _ => false,
        },
{
}

/// A change, and an operation with the change that it came in, are seen with all
/// their parts, the operations of a change in their order.
pub proof fn changes_are_seen_as_written(c: Change, o: OperationWithMetadata)
    ensures
        c.deep_view().actor == c.actor_id.deep_view(),
        c.deep_view().seq == c.seq,
        c.deep_view().deps == c.dependencies.deep_view(),
        match (c.message, c.deep_view().message) {
            (Some(s), Some(t)) => t == s@,
            (None, None) => true,
            _ => false,
        },
        c.deep_view().ops.len() == c.operations@.len(),
        forall|i: int|
            0 <= i < c.operations@.len() ==> #[trigger] c.deep_view().ops[i]
                == c.operations@[i].deep_view(),
        o.deep_view().actor == o.actor_id.deep_view(),
        o.deep_view().seq == o.sequence,
        o.deep_view().op == o.operation.deep_view(),
{
}

/// A step is seen as what it is, with all that is written in it.
pub proof fn steps_are_seen_as_written(action: DiffAction)
    ensures
        match (action, action.deep_view()) {
            (DiffAction::CreateMap(a, s), ActionView::CreateMap(b, t)) => b == a.deep_view() && t
                == s,
            (DiffAction::CreateList(a, s), ActionView::CreateList(b, t)) => b == a.deep_view() && t
                == s,
            (DiffAction::MaxElem(a, m, s), ActionView::MaxElem(b, n, t)) => b == a.deep_view() && n
                == m && t == s,
            (DiffAction::RemoveMapKey(a, s, j), ActionView::RemoveMapKey(b, t, k)) => b
                == a.deep_view() && t == s && k == j.deep_view(),
            (DiffAction::SetMapKey(a, s, j, v, x), ActionView::SetMapKey(b, t, k, w, y)) => b
                == a.deep_view() && t == s && k == j.deep_view() && w == v.deep_view() && y == x,
            (
                DiffAction::RemoveSequenceElement(a, s, m),
                ActionView::RemoveSequenceElement(b, t, n),
            ) => b == a.deep_view() && t == s && n == m,
            (
                DiffAction::InsertSequenceElement(a, s, m, v, x, e),
                ActionView::InsertSequenceElement(b, t, n, w, y, f),
            ) => b == a.deep_view() && t == s && n == m && w == v.deep_view() && y == x && f
                == e.deep_view(),
            (
                DiffAction::SetSequenceElement(a, s, m, v, x),
                ActionView::SetSequenceElement(b, t, n, w, y),
            ) => b == a.deep_view() && t == s && n == m && w == v.deep_view() && y == x,
            _ => false,
        },
{
}

/// A report is seen with its step and with all its conflicts, in their order.
pub proof fn reports_are_seen_as_written(d: Diff, c: Conflict)
    ensures
        d.deep_view().action == d.action.deep_view(),
        d.deep_view().conflicts.len() == d.conflicts@.len(),
        forall|i: int|
            0 <= i < d.conflicts@.len() ==> #[trigger] d.deep_view().conflicts[i]
                == d.conflicts@[i].deep_view(),
        c.deep_view().actor == c.actor.deep_view(),
        c.deep_view().value == c.value.deep_view(),
        c.deep_view().datatype == c.datatype,
{
}

/// An error is seen with the object or the text in it.
pub proof fn errors_are_seen_as_written(e: AutomergeError)
    ensures
        match (e, e.deep_view()) {
            (AutomergeError::MissingObjectError(a), ErrorView::MissingObjectError(b)) => b
                == a.deep_view(),
            (AutomergeError::InvalidChange(s), ErrorView::InvalidChange(t)) => t == s@,
            _ => false,
        },
{
}

/// Objects are seen with all their parts.
pub proof fn objects_are_seen_as_written(m: MapState, l: ListState, o: ObjectState)
    ensures
        m.deep_view().ops == m.operations_by_key.deep_view(),
        m.deep_view().keys == m.operations_by_key.keys(),
        m.deep_view().map_type == m.map_type,
        m.deep_view().object_id == m.object_id.deep_view(),
        l.deep_view().ops == l.operations_by_elemid.deep_view(),
        l.deep_view().insertions == l.insertions.deep_view(),
        l.deep_view().following == l.following.deep_view(),
        l.deep_view().max_elem == l.max_elem,
        l.deep_view().sequence_type == l.sequence_type,
        l.deep_view().object_id == l.object_id.deep_view(),
        match (o, o.deep_view()) {
            (ObjectState::MapObject(a), ObjectView::MapObject(b)) => b == a.deep_view(),
            (ObjectState::List(a), ObjectView::List(b)) => b == a.deep_view(),
            _ => false,
        },
{
}

/// IDs, values and operations are equal if and only if they are seen as the same.
pub proof fn equal_operations_are_seen_as_the_same(
    actors: (ActorID, ActorID),
    keys: (Key, Key),
    ids: (ObjectID, ObjectID),
    elements: (ElementID, ElementID),
    primitives: (PrimitiveValue, PrimitiveValue),
    operations: (Operation, Operation),
    signed: (OperationWithMetadata, OperationWithMetadata),
    changes: (Change, Change),
)
    ensures
        actors.0.eq_spec(&actors.1) <==> actors.0.deep_view() == actors.1.deep_view(),
        keys.0.eq_spec(&keys.1) <==> keys.0.deep_view() == keys.1.deep_view(),
        ids.0.eq_spec(&ids.1) <==> ids.0.deep_view() == ids.1.deep_view(),
        elements.0.eq_spec(&elements.1) <==> elements.0.deep_view() == elements.1.deep_view(),
        primitives.0.eq_spec(&primitives.1) <==> primitives.0.deep_view()
            == primitives.1.deep_view(),
        operations.0.eq_spec(&operations.1) <==> operations.0.deep_view()
            == operations.1.deep_view(),
        signed.0.eq_spec(&signed.1) <==> signed.0.deep_view() == signed.1.deep_view(),
        changes.0.eq_spec(&changes.1) <==> changes.0.deep_view() == changes.1.deep_view(),
{
}

/// Reports and errors are equal if and only if they are seen as the same.
pub proof fn equal_reports_are_seen_as_the_same(
    values: (ElementValue, ElementValue),
    conflicts: (Conflict, Conflict),
    actions: (DiffAction, DiffAction),
    diffs: (Diff, Diff),
    errors: (AutomergeError, AutomergeError),
)
    ensures
        values.0.eq_spec(&values.1) <==> values.0.deep_view() == values.1.deep_view(),
        conflicts.0.eq_spec(&conflicts.1) <==> conflicts.0.deep_view() == conflicts.1.deep_view(),
        actions.0.eq_spec(&actions.1) <==> actions.0.deep_view() == actions.1.deep_view(),
        diffs.0.eq_spec(&diffs.1) <==> diffs.0.deep_view() == diffs.1.deep_view(),
        errors.0.eq_spec(&errors.1) <==> errors.0.deep_view() == errors.1.deep_view(),
{
}

/// Clocks, fields, lists and the applied changes are equal if and only if they are
/// seen as the same.
pub proof fn equal_states_are_seen_as_the_same(
    clocks: (Clock, Clock),
    fields: (ConcurrentOperations, ConcurrentOperations),
    states: (ActorStates, ActorStates),
    lists: (ListState, ListState),
)
    ensures
        clocks.0.eq_spec(&clocks.1) <==> clocks.0.deep_view() == clocks.1.deep_view(),
        fields.0.eq_spec(&fields.1) <==> fields.0.deep_view() == fields.1.deep_view(),
        states.0.eq_spec(&states.1) <==> states.0.deep_view() == states.1.deep_view(),
        lists.0.eq_spec(&lists.1) <==> lists.0.deep_view() == lists.1.deep_view(),
{
}

/// Two objects are equal if and only if they are of one kind, have the same type
/// and ID, and hold the same in all their fields or elements. The order in which
/// the fields of a map were first written does not count.
pub proof fn equal_objects_hold_the_same(
    maps: (MapState, MapState),
    objects: (ObjectState, ObjectState),
)
    ensures
        maps.0.eq_spec(&maps.1) <==> {
            &&& maps.0.operations_by_key.deep_view() == maps.1.operations_by_key.deep_view()
            &&& maps.0.map_type == maps.1.map_type
            &&& maps.0.object_id.deep_view() == maps.1.object_id.deep_view()
        },
        objects.0.eq_spec(&objects.1) <==> match (objects.0, objects.1) {
            (ObjectState::MapObject(m), ObjectState::MapObject(n)) => m.eq_spec(&n),
            (ObjectState::List(l), ObjectState::List(k)) => l.eq_spec(&k),
            _ => false,
        },
{
}

/// Two object stores are equal if and only if they hold the same objects, under the
/// same IDs.
pub proof fn equal_stores_hold_the_same(a: ObjectStore, b: ObjectStore)
    ensures
        a.eq_spec(&b) <==> {
            &&& a.deep_view().dom() == b.deep_view().dom()
            &&& forall|id: ObjectIDView| #[trigger]
                a.deep_view().contains_key(id) ==> match (a.deep_view()[id], b.deep_view()[id]) {
                    (ObjectView::MapObject(m), ObjectView::MapObject(n)) => m.ops == n.ops
                        && m.map_type == n.map_type && m.object_id == n.object_id,
                    (ObjectView::List(l), ObjectView::List(k)) => l == k,
                    _ => false,
                }
        },
{
    let (x, y) = (a.deep_view(), b.deep_view());
    if a.eq_spec(&b) {
        assert forall|id: ObjectIDView| x.dom().contains(id) == y.dom().contains(id) by {
            if x.contains_key(id) {
                assert(y.contains_key(id));
            }
            if y.contains_key(id) {
                assert(x.contains_key(id));
            }
        }
        assert(x.dom() =~= y.dom());
    }
    if x.dom() == y.dom() {
        assert forall|id: ObjectIDView| x.contains_key(id) == y.contains_key(id) by {
            assert(x.dom().contains(id) == y.dom().contains(id));
        }
    }
}

/// Operation sets are equal if and only if their object stores are, and all else is
/// seen as the same.
pub proof fn equal_operation_sets_are_seen_as_the_same(a: OpSet, b: OpSet)
    ensures
        a.eq_spec(&b) <==> {
            &&& a.object_store.eq_spec(&b.object_store)
            &&& a.pending.deep_view() == b.pending.deep_view()
            &&& a.clock.deep_view() == b.clock.deep_view()
            &&& a.undo_stack.deep_view() == b.undo_stack.deep_view()
            &&& a.redo_stack.deep_view() == b.redo_stack.deep_view()
            &&& a.states.deep_view() == b.states.deep_view()
        },
{
}

} // verus!

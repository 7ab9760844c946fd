//! Changes and the operations that they are made of.

use vstd::prelude::*;

use crate::clock::{Clock, ClockView};
use crate::ids::{
    ActorID, ElementID, ElementIDView, Ident, Key, ObjectID, ObjectIDView, Twin,
};

verus! {

/// How a primitive value is to be read.
#[derive(Debug, Clone, Copy, PartialEq, Eq, Structural)]
pub enum DataType {
    Counter,
    Timestamp,
}

/// A value that holds no other values. Numbers are 64-bit integers, and their
/// arithmetic wraps.
#[derive(Debug)]
pub enum PrimitiveValue {
    Str(String),
    Number(i64),
    Boolean(bool),
    Null,
}

/// The view of a [`PrimitiveValue`].
pub enum PrimitiveView {
    Str(Seq<char>),
    Number(i64),
    Boolean(bool),
    Null,
}

impl DeepView for PrimitiveValue {
    type V = PrimitiveView;

    open spec fn deep_view(&self) -> PrimitiveView {
        match self {
            PrimitiveValue::Str(s) => PrimitiveView::Str(s@),
            PrimitiveValue::Number(n) => PrimitiveView::Number(*n),
            PrimitiveValue::Boolean(b) => PrimitiveView::Boolean(*b),
            PrimitiveValue::Null => PrimitiveView::Null,
        }
    }
}

impl Clone for PrimitiveValue {
    fn clone(&self) -> (r: Self)
        ensures
            r == *self,
    {
        match self {
            PrimitiveValue::Str(s) => PrimitiveValue::Str(s.clone()),
            PrimitiveValue::Number(n) => PrimitiveValue::Number(*n),
            PrimitiveValue::Boolean(b) => PrimitiveValue::Boolean(*b),
            PrimitiveValue::Null => PrimitiveValue::Null,
        }
    }
}

impl Ident for PrimitiveValue {
    fn same(&self, other: &Self) -> (r: bool) {
        match (self, other) {
            (PrimitiveValue::Str(a), PrimitiveValue::Str(b)) => *a == *b,
            (PrimitiveValue::Number(a), PrimitiveValue::Number(b)) => *a == *b,
            (PrimitiveValue::Boolean(a), PrimitiveValue::Boolean(b)) => *a == *b,
            (PrimitiveValue::Null, PrimitiveValue::Null) => true,
            _ => false,
        }
    }
}

impl PartialEq for PrimitiveValue {
    fn eq(&self, other: &Self) -> (r: bool) {
        self.same(other)
    }
}

impl vstd::std_specs::cmp::PartialEqSpecImpl for PrimitiveValue {
    open spec fn obeys_eq_spec() -> bool {
        true
    }

    open spec fn eq_spec(&self, other: &Self) -> bool {
        self.deep_view() == other.deep_view()
    }
}

/// One step of a change.
#[derive(Debug)]
#[allow(inconsistent_fields)]
pub enum Operation {
    /// Makes an empty map.
    MakeMap { object_id: ObjectID },
    /// Makes an empty list.
    MakeList { object_id: ObjectID },
    /// Makes an empty text.
    MakeText { object_id: ObjectID },
    /// Makes an empty table.
    MakeTable { object_id: ObjectID },
    /// Inserts a new element into a list, after the element `key`. The actor of
    /// the change and the counter `elem` name the new element.
    Insert { list_id: ObjectID, key: ElementID, elem: u32 },
    /// Gives a field a primitive value.
    SetValue { object_id: ObjectID, key: Key, value: PrimitiveValue, datatype: Option<DataType> },
    /// Makes a field refer to an object.
    Link { object_id: ObjectID, key: Key, value: ObjectID },
    /// Empties a field.
    Delete { object_id: ObjectID, key: Key },
    /// Adds to a counter.
    Increment { object_id: ObjectID, key: Key, value: i64 },
}

/// The view of an [`Operation`].
#[allow(inconsistent_fields)]
pub enum OperationView {
    MakeMap { object_id: ObjectIDView },
    MakeList { object_id: ObjectIDView },
    MakeText { object_id: ObjectIDView },
    MakeTable { object_id: ObjectIDView },
    Insert { list_id: ObjectIDView, key: ElementIDView, elem: u32 },
    SetValue {
        object_id: ObjectIDView,
        key: Seq<char>,
        value: PrimitiveView,
        datatype: Option<DataType>,
    },
    Link { object_id: ObjectIDView, key: Seq<char>, value: ObjectIDView },
    Delete { object_id: ObjectIDView, key: Seq<char> },
    Increment { object_id: ObjectIDView, key: Seq<char>, value: i64 },
}

impl DeepView for Operation {
    type V = OperationView;

    open spec fn deep_view(&self) -> OperationView {
        match self {
            Operation::MakeMap { object_id } => OperationView::MakeMap {
                object_id: object_id.deep_view(),
            },
            Operation::MakeList { object_id } => OperationView::MakeList {
                object_id: object_id.deep_view(),
            },
            Operation::MakeText { object_id } => OperationView::MakeText {
                object_id: object_id.deep_view(),
            },
            Operation::MakeTable { object_id } => OperationView::MakeTable {
                object_id: object_id.deep_view(),
            },
            Operation::Insert { list_id, key, elem } => OperationView::Insert {
                list_id: list_id.deep_view(),
                key: key.deep_view(),
                elem: *elem,
            },
            Operation::SetValue { object_id, key, value, datatype } => OperationView::SetValue {
                object_id: object_id.deep_view(),
                key: key.deep_view(),
                value: value.deep_view(),
                datatype: *datatype,
            },
            Operation::Link { object_id, key, value } => OperationView::Link {
                object_id: object_id.deep_view(),
                key: key.deep_view(),
                value: value.deep_view(),
            },
            Operation::Delete { object_id, key } => OperationView::Delete {
                object_id: object_id.deep_view(),
                key: key.deep_view(),
            },
            Operation::Increment { object_id, key, value } => OperationView::Increment {
                object_id: object_id.deep_view(),
                key: key.deep_view(),
                value: *value,
            },
        }
    }
}

impl Clone for Operation {
    fn clone(&self) -> (r: Self)
        ensures
            r == *self,
    {
        match self {
            Operation::MakeMap { object_id } => Operation::MakeMap { object_id: object_id.clone() },
            Operation::MakeList { object_id } => Operation::MakeList {
                object_id: object_id.clone(),
            },
            Operation::MakeText { object_id } => Operation::MakeText {
                object_id: object_id.clone(),
            },
            Operation::MakeTable { object_id } => Operation::MakeTable {
                object_id: object_id.clone(),
            },
            Operation::Insert { list_id, key, elem } => Operation::Insert {
                list_id: list_id.clone(),
                key: key.clone(),
                elem: *elem,
            },
            Operation::SetValue { object_id, key, value, datatype } => Operation::SetValue {
                object_id: object_id.clone(),
                key: key.clone(),
                value: value.clone(),
                datatype: *datatype,
            },
            Operation::Link { object_id, key, value } => Operation::Link {
                object_id: object_id.clone(),
                key: key.clone(),
                value: value.clone(),
            },
            Operation::Delete { object_id, key } => Operation::Delete {
                object_id: object_id.clone(),
                key: key.clone(),
            },
            Operation::Increment { object_id, key, value } => Operation::Increment {
                object_id: object_id.clone(),
                key: key.clone(),
                value: *value,
            },
        }
    }
}

/// Whether two readings are the same.
pub fn same_datatype(a: &Option<DataType>, b: &Option<DataType>) -> (r: bool)
    ensures
        r == (*a == *b),
{
    match (a, b) {
        (Some(x), Some(y)) => *x == *y,
        (None, None) => true,
        _ => false,
    }
}

impl Twin for Operation {
    fn twin(&self) -> (r: Self) {
        self.clone()
    }
}

impl Ident for Operation {
    fn same(&self, other: &Self) -> (r: bool) {
        match (self, other) {
            (
                Operation::MakeMap { object_id: a },
                Operation::MakeMap { object_id: b },
            ) => a.same(b),
            (
                Operation::MakeList { object_id: a },
                Operation::MakeList { object_id: b },
            ) => a.same(b),
            (
                Operation::MakeText { object_id: a },
                Operation::MakeText { object_id: b },
            ) => a.same(b),
            (
                Operation::MakeTable { object_id: a },
                Operation::MakeTable { object_id: b },
            ) => a.same(b),
            (
                Operation::Insert { list_id: a, key: k, elem: m },
                Operation::Insert { list_id: b, key: l, elem: n },
            ) => a.same(b) && k.same(l) && *m == *n,
            (
                Operation::SetValue { object_id: a, key: k, value: v, datatype: d },
                Operation::SetValue { object_id: b, key: l, value: w, datatype: e },
            ) => a.same(b) && k.same(l) && v.same(w) && same_datatype(d, e),
            (
                Operation::Link { object_id: a, key: k, value: v },
                Operation::Link { object_id: b, key: l, value: w },
            ) => a.same(b) && k.same(l) && v.same(w),
            (
                Operation::Delete { object_id: a, key: k },
                Operation::Delete { object_id: b, key: l },
            ) => a.same(b) && k.same(l),
            (
                Operation::Increment { object_id: a, key: k, value: m },
                Operation::Increment { object_id: b, key: l, value: n },
            ) => a.same(b) && k.same(l) && *m == *n,
            _ => false,
        }
    }
}

impl PartialEq for Operation {
    fn eq(&self, other: &Self) -> (r: bool) {
        self.same(other)
    }
}

impl vstd::std_specs::cmp::PartialEqSpecImpl for Operation {
    open spec fn obeys_eq_spec() -> bool {
        true
    }

    open spec fn eq_spec(&self, other: &Self) -> bool {
        self.deep_view() == other.deep_view()
    }
}

impl OperationView {
    /// The object that the operation makes or works on.
    pub open spec fn object(self) -> ObjectIDView {
        match self {
            OperationView::MakeMap { object_id } => object_id,
            OperationView::MakeList { object_id } => object_id,
            OperationView::MakeText { object_id } => object_id,
            OperationView::MakeTable { object_id } => object_id,
            OperationView::Insert { list_id, .. } => list_id,
            OperationView::SetValue { object_id, .. } => object_id,
            OperationView::Link { object_id, .. } => object_id,
            OperationView::Delete { object_id, .. } => object_id,
            OperationView::Increment { object_id, .. } => object_id,
        }
    }

    /// Whether the operation makes an object.
    pub open spec fn makes(self) -> bool {
        self is MakeMap || self is MakeList || self is MakeText || self is MakeTable
    }

    /// Whether the operation gives a field a value.
    pub open spec fn assigns(self) -> bool {
        self is SetValue || self is Link
    }

    /// Whether the operation changes a field.
    pub open spec fn mutates(self) -> bool {
        self is SetValue || self is Link || self is Delete || self is Increment
    }

    /// The field that the operation changes, if it changes one.
    pub open spec fn field(self) -> Seq<char>
        recommends
            self.mutates(),
    {
        match self {
            OperationView::SetValue { key, .. } => key,
            OperationView::Link { key, .. } => key,
            OperationView::Delete { key, .. } => key,
            OperationView::Increment { key, .. } => key,
            _ => Seq::empty(),
        }
    }
}

impl Operation {
    /// The object that the operation makes or works on.
    pub fn object_id(&self) -> (r: &ObjectID)
        ensures
            r.deep_view() == self.deep_view().object(),
    {
        match self {
            Operation::MakeMap { object_id } => object_id,
            Operation::MakeList { object_id } => object_id,
            Operation::MakeText { object_id } => object_id,
            Operation::MakeTable { object_id } => object_id,
            Operation::Insert { list_id, .. } => list_id,
            Operation::SetValue { object_id, .. } => object_id,
            Operation::Link { object_id, .. } => object_id,
            Operation::Delete { object_id, .. } => object_id,
            Operation::Increment { object_id, .. } => object_id,
        }
    }

    /// Whether the operation makes an object.
    pub fn makes_object(&self) -> (r: bool)
        ensures
            r == self.deep_view().makes(),
    {
        match self {
            Operation::MakeMap { .. }
            | Operation::MakeList { .. }
            | Operation::MakeText { .. }
            | Operation::MakeTable { .. } => true,
            _ => false,
        }
    }
}

/// An operation together with the change that it came in.
#[derive(Debug)]
pub struct OperationWithMetadata {
    pub sequence: u32,
    pub actor_id: ActorID,
    pub operation: Operation,
}

/// The view of an [`OperationWithMetadata`].
pub struct OpView {
    pub seq: u32,
    pub actor: Seq<char>,
    pub op: OperationView,
}

impl DeepView for OperationWithMetadata {
    type V = OpView;

    open spec fn deep_view(&self) -> OpView {
        OpView {
            seq: self.sequence,
            actor: self.actor_id.deep_view(),
            op: self.operation.deep_view(),
        }
    }
}

impl Clone for OperationWithMetadata {
    fn clone(&self) -> (r: Self)
        ensures
            r == *self,
    {
        OperationWithMetadata {
            sequence: self.sequence,
            actor_id: self.actor_id.clone(),
            operation: self.operation.clone(),
        }
    }
}

impl Twin for OperationWithMetadata {
    fn twin(&self) -> (r: Self) {
        self.clone()
    }
}

impl Ident for OperationWithMetadata {
    fn same(&self, other: &Self) -> (r: bool) {
        self.sequence == other.sequence && self.actor_id.same(&other.actor_id)
            && self.operation.same(&other.operation)
    }
}

impl PartialEq for OperationWithMetadata {
    fn eq(&self, other: &Self) -> (r: bool) {
        self.same(other)
    }
}

impl vstd::std_specs::cmp::PartialEqSpecImpl for OperationWithMetadata {
    open spec fn obeys_eq_spec() -> bool {
        true
    }

    open spec fn eq_spec(&self, other: &Self) -> bool {
        self.deep_view() == other.deep_view()
    }
}

/// A set of operations that an actor made at once. The changes of an actor are
/// numbered from 1; `dependencies` says what the actor had seen of the others.
#[derive(Debug)]
pub struct Change {
    pub actor_id: ActorID,
    pub seq: u32,
    pub message: Option<String>,
    pub dependencies: Clock,
    pub operations: Vec<Operation>,
}

/// The view of a [`Change`].
#[verifier::ext_equal]
pub struct ChangeView {
    pub actor: Seq<char>,
    pub seq: u32,
    pub message: Option<Seq<char>>,
    pub deps: ClockView,
    pub ops: Seq<OperationView>,
}

impl DeepView for Change {
    type V = ChangeView;

    open spec fn deep_view(&self) -> ChangeView {
        ChangeView {
            actor: self.actor_id.deep_view(),
            seq: self.seq,
            message: self.message.deep_view(),
            deps: self.dependencies.deep_view(),
            ops: self.operations.deep_view(),
        }
    }
}

/// A copy of a message.
fn copy_message(m: &Option<String>) -> (r: Option<String>)
    ensures
        r == *m,
{
    match m {
        Some(s) => Some(s.clone()),
        None => None,
    }
}

/// Whether two messages are the same.
fn same_message(a: &Option<String>, b: &Option<String>) -> (r: bool)
    ensures
        r == (a.deep_view() == b.deep_view()),
{
    match (a, b) {
        (Some(x), Some(y)) => *x == *y,
        (None, None) => true,
        _ => false,
    }
}

impl Clone for Change {
    fn clone(&self) -> (r: Self)
        ensures
            r.deep_view() == self.deep_view(),
    {
        Change {
            actor_id: self.actor_id.clone(),
            seq: self.seq,
            message: copy_message(&self.message),
            dependencies: self.dependencies.clone(),
            operations: self.operations.twin(),
        }
    }
}

impl Twin for Change {
    fn twin(&self) -> (r: Self) {
        self.clone()
    }
}

impl Ident for Change {
    fn same(&self, other: &Self) -> (r: bool) {
        self.actor_id.same(&other.actor_id) && self.seq == other.seq && same_message(
            &self.message,
            &other.message,
        ) && self.dependencies == other.dependencies && self.operations.same(&other.operations)
    }
}

impl PartialEq for Change {
    fn eq(&self, other: &Self) -> (r: bool) {
        self.same(other)
    }
}

impl vstd::std_specs::cmp::PartialEqSpecImpl for Change {
    open spec fn obeys_eq_spec() -> bool {
        true
    }

    open spec fn eq_spec(&self, other: &Self) -> bool {
        self.deep_view() == other.deep_view()
    }
}

} // verus!

//! What a change did to the document, as it is reported to a client.

use vstd::prelude::*;

use crate::ids::{ActorID, ElementID, ElementIDView, Ident, Key, ObjectID, ObjectIDView};
use crate::protocol::{
    same_datatype, DataType, OpView, OperationView, PrimitiveValue, PrimitiveView,
};

verus! {

/// The kinds of keyed objects.
#[derive(Debug, Clone, Copy, PartialEq, Eq, Structural)]
pub enum MapType {
    PlainMap,
    Table,
}

/// The kinds of sequences.
#[derive(Debug, Clone, Copy, PartialEq, Eq, Structural)]
pub enum SequenceType {
    List,
    Text,
}

/// The value of a field: a primitive value, or a reference to an object.
#[derive(Debug)]
pub enum ElementValue {
    Primitive(PrimitiveValue),
    Link(ObjectID),
}

/// The view of an [`ElementValue`].
pub enum ValueView {
    Primitive(PrimitiveView),
    Link(ObjectIDView),
}

impl DeepView for ElementValue {
    type V = ValueView;

    open spec fn deep_view(&self) -> ValueView {
        match self {
            ElementValue::Primitive(p) => ValueView::Primitive(p.deep_view()),
            ElementValue::Link(id) => ValueView::Link(id.deep_view()),
        }
    }
}

impl Clone for ElementValue {
    fn clone(&self) -> (r: Self)
        ensures
            r == *self,
    {
        match self {
            ElementValue::Primitive(p) => ElementValue::Primitive(p.clone()),
            ElementValue::Link(id) => ElementValue::Link(id.clone()),
        }
    }
}

impl Ident for ElementValue {
    fn same(&self, other: &Self) -> (r: bool) {
        match (self, other) {
            (ElementValue::Primitive(a), ElementValue::Primitive(b)) => a.same(b),
            (ElementValue::Link(a), ElementValue::Link(b)) => a.same(b),
            _ => false,
        }
    }
}

impl PartialEq for ElementValue {
    fn eq(&self, other: &Self) -> (r: bool) {
        self.same(other)
    }
}

impl vstd::std_specs::cmp::PartialEqSpecImpl for ElementValue {
    open spec fn obeys_eq_spec() -> bool {
        true
    }

    open spec fn eq_spec(&self, other: &Self) -> bool {
        self.deep_view() == other.deep_view()
    }
}

/// A value that an actor gave a field, and that lost to the value shown.
#[derive(Debug)]
pub struct Conflict {
    pub actor: ActorID,
    pub value: ElementValue,
    pub datatype: Option<DataType>,
}

/// The view of a [`Conflict`].
pub struct ConflictView {
    pub actor: Seq<char>,
    pub value: ValueView,
    pub datatype: Option<DataType>,
}

impl DeepView for Conflict {
    type V = ConflictView;

    open spec fn deep_view(&self) -> ConflictView {
        ConflictView {
            actor: self.actor.deep_view(),
            value: self.value.deep_view(),
            datatype: self.datatype,
        }
    }
}

impl Clone for Conflict {
    fn clone(&self) -> (r: Self)
        ensures
            r == *self,
    {
        Conflict {
            actor: self.actor.clone(),
            value: self.value.clone(),
            datatype: self.datatype,
        }
    }
}

impl Ident for Conflict {
    fn same(&self, other: &Self) -> (r: bool) {
        self.actor.same(&other.actor) && self.value.same(&other.value) && same_datatype(
            &self.datatype,
            &other.datatype,
        )
    }
}

impl PartialEq for Conflict {
    fn eq(&self, other: &Self) -> (r: bool) {
        self.same(other)
    }
}

impl vstd::std_specs::cmp::PartialEqSpecImpl for Conflict {
    open spec fn obeys_eq_spec() -> bool {
        true
    }

    open spec fn eq_spec(&self, other: &Self) -> bool {
        self.deep_view() == other.deep_view()
    }
}

/// One step of bringing a client's copy of the document up to date.
#[derive(Debug)]
pub enum DiffAction {
    CreateMap(ObjectID, MapType),
    CreateList(ObjectID, SequenceType),
    /// The largest counter of the elements of a list.
    MaxElem(ObjectID, u32, SequenceType),
    RemoveMapKey(ObjectID, MapType, Key),
    SetMapKey(ObjectID, MapType, Key, ElementValue, Option<DataType>),
    RemoveSequenceElement(ObjectID, SequenceType, u32),
    InsertSequenceElement(
        ObjectID,
        SequenceType,
        u32,
        ElementValue,
        Option<DataType>,
        ElementID,
    ),
    SetSequenceElement(ObjectID, SequenceType, u32, ElementValue, Option<DataType>),
}

/// The view of a [`DiffAction`].
pub enum ActionView {
    CreateMap(ObjectIDView, MapType),
    CreateList(ObjectIDView, SequenceType),
    MaxElem(ObjectIDView, u32, SequenceType),
    RemoveMapKey(ObjectIDView, MapType, Seq<char>),
    SetMapKey(ObjectIDView, MapType, Seq<char>, ValueView, Option<DataType>),
    RemoveSequenceElement(ObjectIDView, SequenceType, u32),
    InsertSequenceElement(
        ObjectIDView,
        SequenceType,
        u32,
        ValueView,
        Option<DataType>,
        ElementIDView,
    ),
    SetSequenceElement(ObjectIDView, SequenceType, u32, ValueView, Option<DataType>),
}

impl DeepView for DiffAction {
    type V = ActionView;

    open spec fn deep_view(&self) -> ActionView {
        match self {
            DiffAction::CreateMap(id, t) => ActionView::CreateMap(id.deep_view(), *t),
            DiffAction::CreateList(id, t) => ActionView::CreateList(id.deep_view(), *t),
            DiffAction::MaxElem(id, n, t) => ActionView::MaxElem(id.deep_view(), *n, *t),
            DiffAction::RemoveMapKey(id, t, key) => ActionView::RemoveMapKey(
                id.deep_view(),
                *t,
                key.deep_view(),
            ),
            DiffAction::SetMapKey(id, t, key, value, datatype) => ActionView::SetMapKey(
                id.deep_view(),
                *t,
                key.deep_view(),
                value.deep_view(),
                *datatype,
            ),
            DiffAction::RemoveSequenceElement(id, t, i) => ActionView::RemoveSequenceElement(
                id.deep_view(),
                *t,
                *i,
            ),
            DiffAction::InsertSequenceElement(
                id,
                t,
                i,
                value,
                datatype,
                elem,
            ) => ActionView::InsertSequenceElement(
                id.deep_view(),
                *t,
                *i,
                value.deep_view(),
                *datatype,
                elem.deep_view(),
            ),
            DiffAction::SetSequenceElement(
                id,
                t,
                i,
                value,
                datatype,
            ) => ActionView::SetSequenceElement(
                id.deep_view(),
                *t,
                *i,
                value.deep_view(),
                *datatype,
            ),
        }
    }
}

impl Clone for DiffAction {
    fn clone(&self) -> (r: Self)
        ensures
            r == *self,
    {
        match self {
            DiffAction::CreateMap(id, t) => DiffAction::CreateMap(id.clone(), *t),
            DiffAction::CreateList(id, t) => DiffAction::CreateList(id.clone(), *t),
            DiffAction::MaxElem(id, n, t) => DiffAction::MaxElem(id.clone(), *n, *t),
            DiffAction::RemoveMapKey(id, t, key) => DiffAction::RemoveMapKey(
                id.clone(),
                *t,
                key.clone(),
            ),
            DiffAction::SetMapKey(id, t, key, value, datatype) => DiffAction::SetMapKey(
                id.clone(),
                *t,
                key.clone(),
                value.clone(),
                *datatype,
            ),
            DiffAction::RemoveSequenceElement(id, t, i) => DiffAction::RemoveSequenceElement(
                id.clone(),
                *t,
                *i,
            ),
            DiffAction::InsertSequenceElement(
                id,
                t,
                i,
                value,
                datatype,
                elem,
            ) => DiffAction::InsertSequenceElement(
                id.clone(),
                *t,
                *i,
                value.clone(),
                *datatype,
                elem.clone(),
            ),
            DiffAction::SetSequenceElement(
                id,
                t,
                i,
                value,
                datatype,
            ) => DiffAction::SetSequenceElement(
                id.clone(),
                *t,
                *i,
                value.clone(),
                *datatype,
            ),
        }
    }
}

impl Ident for DiffAction {
    fn same(&self, other: &Self) -> (r: bool) {
        match (self, other) {
            (DiffAction::CreateMap(a, t), DiffAction::CreateMap(b, u)) => a.same(b) && *t == *u,
            (DiffAction::CreateList(a, t), DiffAction::CreateList(b, u)) => a.same(b) && *t == *u,
            (DiffAction::MaxElem(a, m, t), DiffAction::MaxElem(b, n, u)) => a.same(b) && *m == *n
                && *t == *u,
            (DiffAction::RemoveMapKey(a, t, j), DiffAction::RemoveMapKey(b, u, k)) => a.same(b)
                && *t == *u && j.same(k),
            (DiffAction::SetMapKey(a, t, j, v, d), DiffAction::SetMapKey(b, u, k, w, e)) => a.same(
                b,
            ) && *t == *u && j.same(k) && v.same(w) && same_datatype(d, e),
            (
                DiffAction::RemoveSequenceElement(a, t, m),
                DiffAction::RemoveSequenceElement(b, u, n),
            ) => a.same(b) && *t == *u && *m == *n,
            (
                DiffAction::InsertSequenceElement(a, t, m, v, d, x),
                DiffAction::InsertSequenceElement(b, u, n, w, e, y),
            ) => a.same(b) && *t == *u && *m == *n && v.same(w) && same_datatype(d, e) && x.same(y),
            (
                DiffAction::SetSequenceElement(a, t, m, v, d),
                DiffAction::SetSequenceElement(b, u, n, w, e),
            ) => a.same(b) && *t == *u && *m == *n && v.same(w) && same_datatype(d, e),
            _ => false,
        }
    }
}

impl PartialEq for DiffAction {
    fn eq(&self, other: &Self) -> (r: bool) {
        self.same(other)
    }
}

impl vstd::std_specs::cmp::PartialEqSpecImpl for DiffAction {
    open spec fn obeys_eq_spec() -> bool {
        true
    }

    open spec fn eq_spec(&self, other: &Self) -> bool {
        self.deep_view() == other.deep_view()
    }
}

/// A step, with the values that lost in the field it sets.
#[derive(Debug)]
pub struct Diff {
    pub action: DiffAction,
    pub conflicts: Vec<Conflict>,
}

/// The view of a [`Diff`].
#[verifier::ext_equal]
pub struct DiffView {
    pub action: ActionView,
    pub conflicts: Seq<ConflictView>,
}

impl DeepView for Diff {
    type V = DiffView;

    open spec fn deep_view(&self) -> DiffView {
        DiffView { action: self.action.deep_view(), conflicts: self.conflicts.deep_view() }
    }
}

impl Clone for Diff {
    fn clone(&self) -> (r: Self)
        ensures
            r.deep_view() == self.deep_view(),
    {
        let conflicts = self.conflicts.clone();
        assert(conflicts@ =~= self.conflicts@);
        assert(conflicts.deep_view() =~= self.conflicts.deep_view());
        Diff { action: self.action.clone(), conflicts }
    }
}

impl Ident for Diff {
    fn same(&self, other: &Self) -> (r: bool) {
        self.action.same(&other.action) && self.conflicts.same(&other.conflicts)
    }
}

impl PartialEq for Diff {
    fn eq(&self, other: &Self) -> (r: bool) {
        self.same(other)
    }
}

impl vstd::std_specs::cmp::PartialEqSpecImpl for Diff {
    open spec fn obeys_eq_spec() -> bool {
        true
    }

    open spec fn eq_spec(&self, other: &Self) -> bool {
        self.deep_view() == other.deep_view()
    }
}

impl OperationView {
    /// The value that an operation gives a field.
    pub open spec fn value_given(self) -> ValueView
        recommends
            self.assigns(),
    {
        match self {
            OperationView::SetValue { value, .. } => ValueView::Primitive(value),
            OperationView::Link { value, .. } => ValueView::Link(value),
            _ => ValueView::Primitive(PrimitiveView::Null),
        }
    }

    /// How the value that an operation gives a field is to be read.
    pub open spec fn datatype_given(self) -> Option<DataType> {
        match self {
            OperationView::SetValue { datatype, .. } => datatype,
            _ => None,
        }
    }
}

impl OpView {
    /// An operation on a field, as it is reported when it lost to another.
    pub open spec fn as_conflict(self) -> ConflictView {
        ConflictView {
            actor: self.actor,
            value: self.op.value_given(),
            datatype: self.op.datatype_given(),
        }
    }
}

impl ActionView {
    /// The value that a step sets, if it sets one.
    pub open spec fn value_set(self) -> Option<ValueView> {
        match self {
            ActionView::SetMapKey(_, _, _, value, _) => Some(value),
            ActionView::InsertSequenceElement(_, _, _, value, _, _) => Some(value),
            ActionView::SetSequenceElement(_, _, _, value, _) => Some(value),
            _ => None,
        }
    }
}

impl ValueView {
    /// The object that a value refers to, if it is a reference.
    pub open spec fn target(self) -> Option<ObjectIDView> {
        match self {
            ValueView::Link(id) => Some(id),
            _ => None,
        }
    }
}

impl DiffView {
    /// The objects that a step refers to: that of the value it sets, then those
    /// of the values that lost.
    pub open spec fn links(self) -> Seq<ObjectIDView> {
        let first = match self.action.value_set() {
            Some(ValueView::Link(id)) => seq![id],
            _ => Seq::<ObjectIDView>::empty(),
        };
        first + self.conflicts.filter_map(|c: ConflictView| c.value.target())
    }
}

impl Diff {
    /// The objects that the step refers to: that of the value it sets, then
    /// those of the values that lost.
    pub fn links(&self) -> (r: Vec<ObjectID>)
        ensures
            r.deep_view() == self.deep_view().links(),
    {
        let mut r: Vec<ObjectID> = Vec::new();
        let value: Option<&ElementValue> = match &self.action {
            DiffAction::SetMapKey(_, _, _, value, _) => Some(value),
            DiffAction::InsertSequenceElement(_, _, _, value, _, _) => Some(value),
            DiffAction::SetSequenceElement(_, _, _, value, _) => Some(value),
            _ => None,
        };
        if let Some(ElementValue::Link(id)) = value {
            r.push(id.clone());
        }
        let ghost first = r.deep_view();
        let ghost f = |c: ConflictView| c.value.target();
        let ghost all = self.conflicts.deep_view();
        assert(first =~= match self.deep_view().action.value_set() {
            Some(ValueView::Link(id)) => seq![id],
            _ => Seq::<ObjectIDView>::empty(),
        });
        let mut i: usize = 0;
        assert(all.take(0) =~= Seq::<ConflictView>::empty());
        assert(r.deep_view() =~= first + all.take(0).filter_map(f));
        while i < self.conflicts.len()
            invariant
                i <= self.conflicts@.len(),
                all == self.conflicts.deep_view(),
                f == (|c: ConflictView| c.value.target()),
                r.deep_view() == first + all.take(i as int).filter_map(f),
            decreases self.conflicts@.len() - i,
        {
            let ghost before = r.deep_view();
            proof {
                all.lemma_filter_map_take_succ(f, i as int);
            }
            if let ElementValue::Link(id) = &self.conflicts[i].value {
                r.push(id.clone());
                assert(r.deep_view() =~= before.push(id.deep_view()));
            }
            assert(r.deep_view() =~= first + all.take(i + 1).filter_map(f));
            i += 1;
        }
        assert(all.take(i as int) =~= all);
        r
    }
}

} // verus!

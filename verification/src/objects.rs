//! The objects of a document as mathematical values, and what operations do to
//! them.

use vstd::prelude::*;

use crate::actor_states::StatesView;
use crate::concurrent_operations::{
    all_assign, conflicts_of, incorporated, lemma_incorporated_assigns, undoing,
};
use crate::diff::{ActionView, ConflictView, DiffView, MapType, SequenceType};
use crate::error::ErrorView;
use crate::ids::{element_named, ElementIDView, ObjectIDView};
use crate::list_order::{followers, grown, list_order};
use crate::protocol::{OpView, OperationView};
use crate::text::quoted;

verus! {

/// The view of a map or a table.
#[verifier::ext_equal]
pub struct MapStateView {
    /// The operations that hold in each field.
    pub ops: Map<Seq<char>, Seq<OpView>>,
    /// The fields, in the order in which operations first came for them.
    pub keys: Seq<Seq<char>>,
    pub map_type: MapType,
    pub object_id: ObjectIDView,
}

/// The view of a list or a text.
#[verifier::ext_equal]
pub struct ListStateView {
    /// The operations that hold in each element.
    pub ops: Map<ElementIDView, Seq<OpView>>,
    /// The elements that were inserted.
    pub insertions: Map<ElementIDView, ElementIDView>,
    /// What was inserted after each element, as it came.
    pub following: Map<ElementIDView, Seq<ElementIDView>>,
    /// The largest counter of an inserted element.
    pub max_elem: u32,
    pub sequence_type: SequenceType,
    pub object_id: ObjectIDView,
}

/// The view of an object.
#[verifier::ext_equal]
pub enum ObjectView {
    MapObject(MapStateView),
    List(ListStateView),
}

/// The view of an object store.
pub type StoreView = Map<ObjectIDView, ObjectView>;

impl ObjectView {
    /// Whether two objects are equal. The order in which the fields of a map
    /// were first written does not count.
    pub open spec fn equals(self, other: ObjectView) -> bool {
        match (self, other) {
            (ObjectView::MapObject(m), ObjectView::MapObject(n)) => m.equals(n),
            (ObjectView::List(l), ObjectView::List(k)) => l == k,
            _ => false,
        }
    }
}

impl MapStateView {
    /// Whether two maps are equal. The order in which their fields were first
    /// written does not count.
    pub open spec fn equals(self, other: MapStateView) -> bool {
        self.ops == other.ops && self.map_type == other.map_type && self.object_id
            == other.object_id
    }
}

/// Whether all objects of a store are in another, and are equal to those.
pub open spec fn store_within(a: StoreView, b: StoreView) -> bool {
    forall|id: ObjectIDView| #[trigger]
        a.contains_key(id) ==> b.contains_key(id) && a[id].equals(b[id])
}

/// Whether two stores hold equal objects.
pub open spec fn stores_equal(a: StoreView, b: StoreView) -> bool {
    store_within(a, b) && store_within(b, a)
}

/// What a map holds for a key, or else `default`.
pub open spec fn lookup_or<K, V>(m: Map<K, V>, k: K, default: V) -> V {
    if m.contains_key(k) {
        m[k]
    } else {
        default
    }
}

/// What a map holds for a key.
pub open spec fn lookup<K, V>(m: Map<K, V>, k: K) -> Option<V> {
    if m.contains_key(k) {
        Some(m[k])
    } else {
        None
    }
}

/// The step that reports what an operation gave a field of a map.
pub open spec fn map_assign(op: OperationView, map_type: MapType) -> Option<ActionView> {
    if op.assigns() {
        Some(
            ActionView::SetMapKey(
                op.object(),
                map_type,
                op.field(),
                op.value_given(),
                op.datatype_given(),
            ),
        )
    } else {
        None
    }
}

/// The step that reports what an operation gave an element of a list, which
/// is the one at `index`.
pub open spec fn list_assign(
    op: OperationView,
    sequence_type: SequenceType,
    index: u32,
) -> Option<ActionView> {
    if op.assigns() {
        match element_named(op.field()) {
            Some(elem) => Some(
                ActionView::InsertSequenceElement(
                    op.object(),
                    sequence_type,
                    index,
                    op.value_given(),
                    op.datatype_given(),
                    elem,
                ),
            ),
            None => None,
        }
    } else {
        None
    }
}

/// The error for a key that names no element of a list, where `text` is the
/// quoted form of the key.
pub open spec fn no_such_element(text: Seq<char>) -> ErrorView {
    ErrorView::InvalidChange(
        "Attempted to link, set, delete, or increment an object in a list with invalid element ID "@
            + text,
    )
}

/// An index, as 32 bits hold it.
pub open spec fn index32(i: int) -> u32 {
    (i % 0x1_0000_0000) as u32
}

/// The outcome of an operation on an object: the object after it, what is
/// reported, and the operations that take it back.
pub type Outcome<T> = Result<(T, Option<DiffView>, Seq<OperationView>), ErrorView>;

impl MapStateView {
    /// An empty map.
    pub open spec fn fresh(map_type: MapType, object_id: ObjectIDView) -> MapStateView {
        MapStateView { ops: Map::empty(), keys: Seq::empty(), map_type, object_id }
    }

    /// Each field is listed once, and holds values only.
    pub open spec fn wf(self) -> bool {
        &&& self.keys.no_duplicates()
        &&& forall|k: Seq<char>| self.ops.contains_key(k) <==> #[trigger] self.keys.contains(k)
        &&& forall|k: Seq<char>| #[trigger] self.ops.contains_key(k) ==> all_assign(self.ops[k])
    }

    /// The operations that hold in a field.
    pub open spec fn field(self, key: Seq<char>) -> Seq<OpView> {
        lookup_or(self.ops, key, Seq::empty())
    }

    /// The map with the operations of a field replaced.
    pub open spec fn with_field(self, key: Seq<char>, field: Seq<OpView>) -> MapStateView {
        MapStateView {
            ops: self.ops.insert(key, field),
            keys: if self.ops.contains_key(key) {
                self.keys
            } else {
                self.keys.push(key)
            },
            ..self
        }
    }

    /// What is reported of a field after an operation on it.
    pub open spec fn field_report(self, key: Seq<char>, field: Seq<OpView>) -> DiffView {
        let action = if field.len() > 0 {
            ActionView::SetMapKey(
                field[0].op.object(),
                self.map_type,
                field[0].op.field(),
                field[0].op.value_given(),
                field[0].op.datatype_given(),
            )
        } else {
            ActionView::RemoveMapKey(self.object_id, self.map_type, key)
        };
        DiffView { action, conflicts: conflicts_of(field) }
    }

    /// An operation on the field `key`.
    pub open spec fn mutate(self, states: StatesView, op: OpView, key: Seq<char>) -> Outcome<
        MapStateView,
    > {
        let field = incorporated(states, self.field(key), op);
        Ok(
            (
                self.with_field(key, field),
                Some(self.field_report(key, field)),
                undoing(self.field(key), op.op),
            ),
        )
    }

    /// The step that shows a field to a client that has nothing.
    pub open spec fn field_diff(self, key: Seq<char>) -> Option<DiffView> {
        let field = self.field(key);
        if field.len() == 0 {
            None
        } else {
            match map_assign(field[0].op, self.map_type) {
                Some(action) => Some(DiffView { action, conflicts: conflicts_of(field) }),
                None => None,
            }
        }
    }

    /// The steps that make the map for a client that has nothing: its creation,
    /// unless it is the root, and then its fields.
    pub open spec fn diffs(self) -> Seq<DiffView> {
        let creation = if self.object_id is Root {
            Seq::empty()
        } else {
            seq![
                DiffView {
                    action: ActionView::CreateMap(self.object_id, self.map_type),
                    conflicts: Seq::empty(),
                },
            ]
        };
        creation + self.keys.filter_map(|k: Seq<char>| self.field_diff(k))
    }
}

impl ListStateView {
    /// An empty list.
    pub open spec fn fresh(sequence_type: SequenceType, object_id: ObjectIDView) -> ListStateView {
        ListStateView {
            ops: Map::empty(),
            insertions: Map::empty(),
            following: Map::empty(),
            max_elem: 0,
            sequence_type,
            object_id,
        }
    }

    /// The list grew by insertions, all of them are noted, and elements hold
    /// values only.
    pub open spec fn wf(self) -> bool {
        &&& grown(self.ops.dom(), self.following)
        &&& forall|p: ElementIDView, i: int|
            0 <= i < followers(self.following, p).len() ==> self.insertions.contains_key(
                #[trigger] followers(self.following, p)[i],
            )
        &&& forall|e: ElementIDView| #[trigger]
            self.ops.contains_key(e) ==> all_assign(self.ops[e])
    }

    /// The elements, in the order of the list.
    pub open spec fn order(self) -> Seq<ElementIDView> {
        list_order(self.ops.dom(), self.following)->Done_0
    }

    /// The operations that hold in an element.
    pub open spec fn field(self, e: ElementIDView) -> Seq<OpView> {
        lookup_or(self.ops, e, Seq::empty())
    }

    /// The elements that have a value, in the order of the list.
    pub open spec fn visible(self) -> Seq<ElementIDView> {
        self.order().filter(|e: ElementIDView| self.field(e).len() > 0)
    }

    /// The list with the operations of an element replaced.
    pub open spec fn with_field(self, e: ElementIDView, field: Seq<OpView>) -> ListStateView {
        ListStateView { ops: self.ops.insert(e, field), ..self }
    }

    /// The operation that is shown in the first element that has a value.
    pub open spec fn first_shown(self) -> Option<OpView> {
        if self.visible().len() > 0 {
            Some(self.field(self.visible()[0])[0])
        } else {
            None
        }
    }

    /// What is reported after an operation on the element `e`, where `before`
    /// is the list before it. The report is on the first element that has a
    /// value: that it got one, that its value is another, or that there is no
    /// such element any more.
    pub open spec fn field_report(self, before: ListStateView, e: ElementIDView) -> Option<
        DiffView,
    > {
        let action = match (before.first_shown(), self.first_shown()) {
            (Some(_), Some(o)) => Some(
                ActionView::SetSequenceElement(
                    self.object_id,
                    self.sequence_type,
                    0,
                    o.op.value_given(),
                    o.op.datatype_given(),
                ),
            ),
            (Some(_), None) => Some(
                ActionView::RemoveSequenceElement(self.object_id, self.sequence_type, 0),
            ),
            (None, Some(o)) => Some(
                ActionView::InsertSequenceElement(
                    self.object_id,
                    self.sequence_type,
                    0,
                    o.op.value_given(),
                    o.op.datatype_given(),
                    e,
                ),
            ),
            (None, None) => None,
        };
        match action {
            Some(action) => Some(DiffView { action, conflicts: conflicts_of(self.field(e)) }),
            None => None,
        }
    }

    /// An operation on the element that `key` names.
    pub open spec fn mutate(self, states: StatesView, op: OpView, key: Seq<char>) -> Outcome<
        ListStateView,
    > {
        match element_named(key) {
            Some(e) => {
                let after = self.with_field(e, incorporated(states, self.field(e), op));
                Ok((after, after.field_report(self, e), undoing(self.field(e), op.op)))
            },
            None => Err(no_such_element(quoted(key))),
        }
    }

    /// The list with the element that an actor inserted after `parent`.
    pub open spec fn with_insertion(
        self,
        parent: ElementIDView,
        actor: Seq<char>,
        elem: u32,
    ) -> ListStateView {
        let new = ElementIDView::SpecificElementID(actor, elem);
        ListStateView {
            ops: self.ops.insert(new, self.field(new)),
            insertions: self.insertions.insert(new, new),
            following: self.following.insert(
                parent,
                followers(self.following, parent).push(new),
            ),
            max_elem: if self.max_elem < elem {
                elem
            } else {
                self.max_elem
            },
            ..self
        }
    }

    /// An insertion after `parent`.
    pub open spec fn insert_after(
        self,
        parent: ElementIDView,
        actor: Seq<char>,
        elem: u32,
    ) -> Outcome<ListStateView> {
        let new = ElementIDView::SpecificElementID(actor, elem);
        if self.insertions.contains_key(new) {
            Err(
                ErrorView::InvalidChange(
                    "Received an insertion for already present key: "@ + new.shown(),
                ),
            )
        } else {
            let after = self.with_insertion(parent, actor, elem);
            Ok((after, Some(after.max_elem_diff(conflicts_of(self.field(new)))), Seq::empty()))
        }
    }

    /// The step that reports the largest counter.
    pub open spec fn max_elem_diff(
        self,
        conflicts: Seq<ConflictView>,
    ) -> DiffView {
        DiffView {
            action: ActionView::MaxElem(self.object_id, self.max_elem, self.sequence_type),
            conflicts,
        }
    }

    /// The step that shows the element `e` to a client, as the one at `i`.
    pub open spec fn element_diff(self, e: ElementIDView, i: int) -> Option<DiffView> {
        match list_assign(self.field(e)[0].op, self.sequence_type, index32(i)) {
            Some(action) => Some(DiffView { action, conflicts: conflicts_of(self.field(e)) }),
            None => None,
        }
    }

    /// The steps that show elements to a client, one after the other.
    pub open spec fn element_diffs(self, elems: Seq<ElementIDView>) -> Seq<DiffView> {
        elems.map(|i: int, e: ElementIDView| self.element_diff(e, i)).filter_map(
            |d: Option<DiffView>| d,
        )
    }

    /// The steps that make the list for a client that has nothing: its
    /// creation; the elements that have a value, from the last to the first;
    /// and the largest counter.
    pub open spec fn diffs(self) -> Seq<DiffView> {
        let creation = DiffView {
            action: ActionView::CreateList(self.object_id, self.sequence_type),
            conflicts: Seq::empty(),
        };
        seq![creation] + self.element_diffs(
            self.order().reverse().filter(|e: ElementIDView| self.field(e).len() > 0),
        ) + seq![self.max_elem_diff(Seq::empty())]
    }
}

/// An operation on an element keeps a list in order.
pub proof fn lemma_list_mutate_wf(l: ListStateView, states: StatesView, op: OpView, e: ElementIDView)
    requires
        l.wf(),
    ensures
        l.with_field(e, incorporated(states, l.field(e), op)).wf(),
{
    lemma_incorporated_assigns(states, l.field(e), op);
    let after = l.with_field(e, incorporated(states, l.field(e), op));
    assert(after.ops.dom() =~= l.ops.dom().insert(e));
}

/// An insertion keeps a list in order.
pub proof fn lemma_list_insert_wf(
    l: ListStateView,
    parent: ElementIDView,
    actor: Seq<char>,
    elem: u32,
)
    requires
        l.wf(),
        !l.insertions.contains_key(ElementIDView::SpecificElementID(actor, elem)),
    ensures
        l.with_insertion(parent, actor, elem).wf(),
{
    let new = ElementIDView::SpecificElementID(actor, elem);
    let after = l.with_insertion(parent, actor, elem);
    let f = l.following;
    let g = after.following;
    assert(after.ops.dom() =~= l.ops.dom().insert(new));
    assert forall|p: ElementIDView| #[trigger]
        followers(g, p) == if p == parent {
            followers(f, p).push(new)
        } else {
            followers(f, p)
        } by {}
    // Every old element is noted, so it is not the new one.
    assert forall|p: ElementIDView, i: int| 0 <= i < followers(f, p).len() implies #[trigger]
        followers(f, p)[i] != new by {
        assert(l.insertions.contains_key(followers(f, p)[i]));
    }
    assert forall|p: ElementIDView, i: int| 0 <= i < followers(g, p).len() implies {
        &&& !((#[trigger] followers(g, p)[i]) is Head)
        &&& after.ops.dom().contains(followers(g, p)[i])
        &&& after.insertions.contains_key(followers(g, p)[i])
    } by {
        if i < followers(f, p).len() {
            assert(followers(g, p)[i] == followers(f, p)[i]);
        } else {
            assert(followers(g, p)[i] == new);
        }
    }
    assert forall|p: ElementIDView, i: int, q: ElementIDView, j: int|
        0 <= i < followers(g, p).len() && 0 <= j < followers(g, q).len() && #[trigger] followers(
            g,
            p,
        )[i] == #[trigger] followers(g, q)[j] implies p == q && i == j by {
        if i < followers(f, p).len() {
            assert(followers(g, p)[i] == followers(f, p)[i]);
        }
        if j < followers(f, q).len() {
            assert(followers(g, q)[j] == followers(f, q)[j]);
        }
    }
}

/// An operation on a field keeps a map in order.
pub proof fn lemma_map_mutate_wf(m: MapStateView, states: StatesView, op: OpView, key: Seq<char>)
    requires
        m.wf(),
    ensures
        m.with_field(key, incorporated(states, m.field(key), op)).wf(),
{
    lemma_incorporated_assigns(states, m.field(key), op);
    let after = m.with_field(key, incorporated(states, m.field(key), op));
    assert forall|k: Seq<char>| after.ops.contains_key(k) <==> #[trigger] after.keys.contains(
        k,
    ) by {
        if !m.ops.contains_key(key) {
            assert(after.keys == m.keys.push(key));
            if m.keys.contains(k) {
                let i = choose|i: int| 0 <= i < m.keys.len() && m.keys[i] == k;
                assert(after.keys[i] == k);
            }
            if k == key {
                assert(after.keys[m.keys.len() as int] == k);
            }
            if after.keys.contains(k) {
                let i = choose|i: int| 0 <= i < after.keys.len() && after.keys[i] == k;
                if i < m.keys.len() {
                    assert(m.keys[i] == k);
                }
            }
        }
        assert(m.ops.contains_key(k) <==> m.keys.contains(k));
    }
    assert(after.keys.no_duplicates()) by {
        if !m.ops.contains_key(key) {
            assert(!m.keys.contains(key));
        }
    }
}

impl ObjectView {
    pub open spec fn wf(self) -> bool {
        match self {
            ObjectView::MapObject(m) => m.wf(),
            ObjectView::List(l) => l.wf(),
        }
    }

    /// The operations that hold in the field `key`, if operations came for it.
    pub open spec fn field(self, key: Seq<char>) -> Option<Seq<OpView>> {
        match self {
            ObjectView::MapObject(m) => lookup(m.ops, key),
            ObjectView::List(l) => match element_named(key) {
                Some(e) => lookup(l.ops, e),
                None => None,
            },
        }
    }

    /// An operation on the field `key`.
    pub open spec fn mutate(self, states: StatesView, op: OpView, key: Seq<char>) -> Outcome<
        ObjectView,
    > {
        match self {
            ObjectView::MapObject(m) => match m.mutate(states, op, key) {
                Ok((m, diff, undo)) => Ok((ObjectView::MapObject(m), diff, undo)),
                Err(e) => Err(e),
            },
            ObjectView::List(l) => match l.mutate(states, op, key) {
                Ok((l, diff, undo)) => Ok((ObjectView::List(l), diff, undo)),
                Err(e) => Err(e),
            },
        }
    }

    /// The steps that make the object for a client that has nothing.
    pub open spec fn diffs(self) -> Seq<DiffView> {
        match self {
            ObjectView::MapObject(m) => m.diffs(),
            ObjectView::List(l) => l.diffs(),
        }
    }
}

/// The document that holds nothing but an empty root.
pub open spec fn empty_store() -> StoreView {
    Map::empty().insert(
        ObjectIDView::Root,
        ObjectView::MapObject(MapStateView::fresh(MapType::PlainMap, ObjectIDView::Root)),
    )
}

/// A store holds finitely many objects, all of them in order.
pub open spec fn store_wf(store: StoreView) -> bool {
    &&& store.dom().finite()
    &&& forall|id: ObjectIDView| #[trigger] store.contains_key(id) ==> store[id].wf()
}

/// The operations that hold in a field of an object, if operations came for it.
pub open spec fn field_of(store: StoreView, id: ObjectIDView, key: Seq<char>) -> Option<
    Seq<OpView>,
> {
    if store.contains_key(id) {
        store[id].field(key)
    } else {
        None
    }
}

/// A store in which a map was made.
pub open spec fn map_made(store: StoreView, id: ObjectIDView, map_type: MapType) -> Outcome<
    StoreView,
> {
    Ok(
        (
            store.insert(id, ObjectView::MapObject(MapStateView::fresh(map_type, id))),
            Some(
                DiffView {
                    action: ActionView::CreateMap(id, map_type),
                    conflicts: Seq::empty(),
                },
            ),
            Seq::empty(),
        ),
    )
}

/// A store in which a sequence was made.
pub open spec fn list_made(
    store: StoreView,
    id: ObjectIDView,
    sequence_type: SequenceType,
) -> Outcome<StoreView> {
    Ok(
        (
            store.insert(id, ObjectView::List(ListStateView::fresh(sequence_type, id))),
            Some(
                DiffView {
                    action: ActionView::CreateList(id, sequence_type),
                    conflicts: Seq::empty(),
                },
            ),
            Seq::empty(),
        ),
    )
}

/// A store after an operation on a field.
pub open spec fn field_mutated(store: StoreView, states: StatesView, op: OpView) -> Outcome<
    StoreView,
> {
    let id = op.op.object();
    if store.contains_key(id) {
        match store[id].mutate(states, op, op.op.field()) {
            Ok((object, diff, undo)) => Ok((store.insert(id, object), diff, undo)),
            Err(e) => Err(e),
        }
    } else {
        Err(ErrorView::MissingObjectError(id))
    }
}

/// A store after an insertion.
pub open spec fn element_inserted(
    store: StoreView,
    actor: Seq<char>,
    id: ObjectIDView,
    parent: ElementIDView,
    elem: u32,
) -> Outcome<StoreView> {
    match lookup(store, id) {
        Some(ObjectView::List(l)) => match l.insert_after(parent, actor, elem) {
            Ok((l, diff, undo)) => Ok((store.insert(id, ObjectView::List(l)), diff, undo)),
            Err(e) => Err(e),
        },
        Some(ObjectView::MapObject(_)) => Err(
            ErrorView::InvalidChange(
                "Insert operation received for object key (object ID: "@ + id.shown() + ", key: "@
                    + parent.shown(),
            ),
        ),
        None => Err(ErrorView::MissingObjectError(id)),
    }
}

/// A store after an operation: the store, what is reported, and the operations
/// that take it back; or why the operation is refused.
pub open spec fn applied_op(store: StoreView, states: StatesView, op: OpView) -> Outcome<
    StoreView,
> {
    match op.op {
        OperationView::MakeMap { object_id } => map_made(store, object_id, MapType::PlainMap),
        OperationView::MakeTable { object_id } => map_made(store, object_id, MapType::Table),
        OperationView::MakeList { object_id } => list_made(store, object_id, SequenceType::List),
        OperationView::MakeText { object_id } => list_made(store, object_id, SequenceType::Text),
        OperationView::Insert { list_id, key, elem } => element_inserted(
            store,
            op.actor,
            list_id,
            key,
            elem,
        ),
        _ => field_mutated(store, states, op),
    }
}

/// An operation keeps a store in order.
pub proof fn lemma_applied_op_wf(store: StoreView, states: StatesView, op: OpView)
    requires
        store_wf(store),
    ensures
        applied_op(store, states, op) matches Ok((after, _, _)) ==> store_wf(after),
{
    match op.op {
        OperationView::Insert { list_id, key, elem } => {
            if let Some(ObjectView::List(l)) = lookup(store, list_id) {
                if !l.insertions.contains_key(ElementIDView::SpecificElementID(op.actor, elem)) {
                    lemma_list_insert_wf(l, key, op.actor, elem);
                }
            }
        },
        _ => {
            let id = op.op.object();
            if op.op.makes() {
            } else if store.contains_key(id) {
                match store[id] {
                    ObjectView::MapObject(m) => {
                        lemma_map_mutate_wf(m, states, op, op.op.field());
                    },
                    ObjectView::List(l) => {
                        if let Some(e) = element_named(op.op.field()) {
                            lemma_list_mutate_wf(l, states, op, e);
                        }
                    },
                }
            }
        },
    }
    if let Ok((after, _, _)) = applied_op(store, states, op) {
        assert(forall|id: ObjectIDView| #[trigger]
            after.contains_key(id) ==> after[id].wf());
    }
}

/// All objects that a list of steps refers to.
pub open spec fn links_in(diffs: Seq<DiffView>) -> Seq<ObjectIDView>
    decreases diffs.len(),
{
    if diffs.len() == 0 {
        Seq::empty()
    } else {
        links_in(diffs.drop_last()) + diffs.last().links()
    }
}

/// Those of a list of objects that are not in `seen`.
pub open spec fn not_in(ids: Seq<ObjectIDView>, seen: Set<ObjectIDView>) -> Seq<ObjectIDView> {
    ids.filter(|id: ObjectIDView| !seen.contains(id))
}

/// How many entries of `stack` are in `seen`.
pub open spec fn count_in(stack: Seq<ObjectIDView>, seen: Set<ObjectIDView>) -> nat {
    stack.filter(|id: ObjectIDView| seen.contains(id)).len()
}

/// The objects that a walk through a document goes to, where `stack` has still
/// to be gone through, from its end, and `seen` was gone to before. What an
/// object refers to is gone to before the rest of the stack, unless it was seen
/// before.
pub open spec fn visits(
    store: StoreView,
    stack: Seq<ObjectIDView>,
    seen: Set<ObjectIDView>,
) -> Seq<ObjectIDView>
    decreases store.dom().difference(seen).len(), count_in(stack, seen), stack.len(),
    when store.dom().finite()
    via visits_decreases
{
    if stack.len() == 0 {
        Seq::empty()
    } else {
        let id = stack.last();
        let rest = stack.drop_last();
        if store.contains_key(id) {
            seq![id] + visits(
                store,
                rest + not_in(links_in(store[id].diffs()), seen),
                seen.insert(id),
            )
        } else {
            visits(store, rest, seen)
        }
    }
}

/// A walk that goes to an object and on to what that object refers to comes
/// nearer to its end.
pub proof fn lemma_visit_shrinks(
    store: StoreView,
    stack: Seq<ObjectIDView>,
    seen: Set<ObjectIDView>,
    links: Seq<ObjectIDView>,
)
    requires
        store.dom().finite(),
        stack.len() > 0,
    ensures
        ({
            let id = stack.last();
            let rest = stack.drop_last();
            let next = rest + not_in(links, seen);
            let now = seen.insert(id);
            if store.contains_key(id) {
                ||| store.dom().difference(now).len() < store.dom().difference(seen).len()
                ||| {
                    &&& store.dom().difference(now).len() == store.dom().difference(seen).len()
                    &&& count_in(next, now) < count_in(stack, seen)
                }
            } else {
                ||| count_in(rest, seen) < count_in(stack, seen)
                ||| count_in(rest, seen) == count_in(stack, seen)
            }
        }),
{
    let id = stack.last();
    let rest = stack.drop_last();
    let next = rest + not_in(links, seen);
    let now = seen.insert(id);
    let p = |x: ObjectIDView| seen.contains(x);
    assert(stack =~= rest.push(id));
    rest.lemma_filter_push(id, p);
    if store.contains_key(id) {
        if seen.contains(id) {
            assert(now =~= seen);
            Seq::filter_distributes_over_add(rest, not_in(links, seen), p);
            let fresh = not_in(links, seen);
            let q = |x: ObjectIDView| !seen.contains(x);
            assert forall|i: int| 0 <= i < fresh.len() implies !p(#[trigger] fresh[i]) by {
                links.lemma_filter_pred(q, i);
            }
            fresh.lemma_all_neg_filter_empty(p);
        } else {
            let a = store.dom().difference(seen);
            let b = store.dom().difference(now);
            assert(b =~= a.remove(id));
        }
    }
}

#[via_fn]
proof fn visits_decreases(
    store: StoreView,
    stack: Seq<ObjectIDView>,
    seen: Set<ObjectIDView>,
) {
    if stack.len() > 0 {
        lemma_visit_shrinks(store, stack, seen, links_in(store[stack.last()].diffs()));
    }
}

/// The steps that make a list of objects, from the last of them to the first.
pub open spec fn diffs_backwards(store: StoreView, ids: Seq<ObjectIDView>) -> Seq<DiffView>
    decreases ids.len(),
{
    if ids.len() == 0 {
        Seq::empty()
    } else {
        diffs_backwards(store, ids.drop_first()) + store[ids[0]].diffs()
    }
}

/// The objects of a document, in the order in which a walk from the root goes
/// to them.
pub open spec fn document_visits(store: StoreView) -> Seq<ObjectIDView> {
    visits(store, seq![ObjectIDView::Root], Set::empty())
}

/// The steps that make a whole document for a client that has nothing.
pub open spec fn document_diffs(store: StoreView) -> Seq<DiffView> {
    diffs_backwards(store, document_visits(store))
}

} // verus!

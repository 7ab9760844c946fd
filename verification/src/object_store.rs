//! The objects of a document, and the operations that hold in their fields.

use vstd::prelude::*;

use crate::actor_states::ActorStates;
use crate::assoc::{lemma_deep_insert, AssocMap};
use crate::concurrent_operations::{incorporated, ConcurrentOperations};
use crate::diff::{
    ActionView, ConflictView, Diff, DiffAction, DiffView, ElementValue, MapType, SequenceType,
};
use crate::error::AutomergeError;
use crate::ids::{
    has_object, ActorID, ElementID, ElementIDView, Ident, Key, ObjectID, ObjectIDView, Twin,
};
use crate::list_laws::{grown_list_has_order, lemma_order_known};
use crate::list_order::{followers, list_ops_in_order};
use crate::objects::{
    applied_op, count_in, diffs_backwards, document_diffs, document_visits, empty_store, field_of,
    index32, lemma_applied_op_wf, lemma_list_insert_wf, lemma_list_mutate_wf, lemma_map_mutate_wf,
    lemma_visit_shrinks, links_in, list_assign, lookup, map_assign, no_such_element, not_in,
    store_wf, store_within, stores_equal, visits, ListStateView, MapStateView, ObjectView,
    StoreView,
};
use crate::protocol::{Operation, OperationWithMetadata};
use crate::text::{join, owned, quoted_text};

verus! {

/// An object: a map (or table), or a list (or text).
#[derive(Debug)]
pub enum ObjectState {
    MapObject(MapState),
    List(ListState),
}

/// The operations on a list.
#[derive(Debug)]
pub struct ListState {
    pub operations_by_elemid: AssocMap<ElementID, ConcurrentOperations>,
    pub insertions: AssocMap<ElementID, ElementID>,
    pub following: AssocMap<ElementID, Vec<ElementID>>,
    pub max_elem: u32,
    pub sequence_type: SequenceType,
    pub object_id: ObjectID,
}

/// The operations on a map.
#[derive(Debug)]
pub struct MapState {
    pub operations_by_key: AssocMap<String, ConcurrentOperations>,
    pub map_type: MapType,
    pub object_id: ObjectID,
}

/// The object store holds the concurrent operations seen for each object ID,
/// and takes new operations in.
#[derive(Debug)]
pub struct ObjectStore {
    operations_by_object_id: AssocMap<ObjectID, ObjectState>,
}

impl DeepView for MapState {
    type V = MapStateView;

    open spec fn deep_view(&self) -> MapStateView {
        MapStateView {
            ops: self.operations_by_key.deep_view(),
            keys: self.operations_by_key.keys(),
            map_type: self.map_type,
            object_id: self.object_id.deep_view(),
        }
    }
}

impl DeepView for ListState {
    type V = ListStateView;

    open spec fn deep_view(&self) -> ListStateView {
        ListStateView {
            ops: self.operations_by_elemid.deep_view(),
            insertions: self.insertions.deep_view(),
            following: self.following.deep_view(),
            max_elem: self.max_elem,
            sequence_type: self.sequence_type,
            object_id: self.object_id.deep_view(),
        }
    }
}

impl DeepView for ObjectState {
    type V = ObjectView;

    open spec fn deep_view(&self) -> ObjectView {
        match self {
            ObjectState::MapObject(m) => ObjectView::MapObject(m.deep_view()),
            ObjectState::List(l) => ObjectView::List(l.deep_view()),
        }
    }
}

impl DeepView for ObjectStore {
    type V = StoreView;

    closed spec fn deep_view(&self) -> StoreView {
        self.operations_by_object_id.deep_view()
    }
}

impl Clone for MapState {
    fn clone(&self) -> (r: Self)
        ensures
            r.deep_view() == self.deep_view(),
    {
        MapState {
            operations_by_key: self.operations_by_key.clone(),
            map_type: self.map_type,
            object_id: self.object_id.clone(),
        }
    }
}

impl Clone for ListState {
    fn clone(&self) -> (r: Self)
        ensures
            r.deep_view() == self.deep_view(),
    {
        ListState {
            operations_by_elemid: self.operations_by_elemid.clone(),
            insertions: self.insertions.clone(),
            following: self.following.clone(),
            max_elem: self.max_elem,
            sequence_type: self.sequence_type,
            object_id: self.object_id.clone(),
        }
    }
}

impl Clone for ObjectState {
    fn clone(&self) -> (r: Self)
        ensures
            r.deep_view() == self.deep_view(),
    {
        match self {
            ObjectState::MapObject(m) => ObjectState::MapObject(m.clone()),
            ObjectState::List(l) => ObjectState::List(l.clone()),
        }
    }
}

impl Twin for ObjectState {
    fn twin(&self) -> (r: Self) {
        self.clone()
    }
}

impl Clone for ObjectStore {
    fn clone(&self) -> (r: Self)
        ensures
            r.deep_view() == self.deep_view(),
    {
        ObjectStore { operations_by_object_id: self.operations_by_object_id.clone() }
    }
}

impl PartialEq for MapState {
    fn eq(&self, other: &Self) -> (r: bool) {
        self.operations_by_key.same(&other.operations_by_key) && self.map_type == other.map_type
            && self.object_id.same(&other.object_id)
    }
}

impl vstd::std_specs::cmp::PartialEqSpecImpl for MapState {
    open spec fn obeys_eq_spec() -> bool {
        true
    }

    open spec fn eq_spec(&self, other: &Self) -> bool {
        self.deep_view().equals(other.deep_view())
    }
}

impl PartialEq for ListState {
    fn eq(&self, other: &Self) -> (r: bool) {
        self.operations_by_elemid.same(&other.operations_by_elemid) && self.insertions.same(
            &other.insertions,
        ) && self.following.same(&other.following) && self.max_elem == other.max_elem
            && self.sequence_type == other.sequence_type && self.object_id.same(&other.object_id)
    }
}

impl vstd::std_specs::cmp::PartialEqSpecImpl for ListState {
    open spec fn obeys_eq_spec() -> bool {
        true
    }

    open spec fn eq_spec(&self, other: &Self) -> bool {
        self.deep_view() == other.deep_view()
    }
}

impl PartialEq for ObjectState {
    fn eq(&self, other: &Self) -> (r: bool) {
        match (self, other) {
            (ObjectState::MapObject(a), ObjectState::MapObject(b)) => *a == *b,
            (ObjectState::List(a), ObjectState::List(b)) => *a == *b,
            _ => false,
        }
    }
}

impl vstd::std_specs::cmp::PartialEqSpecImpl for ObjectState {
    open spec fn obeys_eq_spec() -> bool {
        true
    }

    open spec fn eq_spec(&self, other: &Self) -> bool {
        self.deep_view().equals(other.deep_view())
    }
}

impl PartialEq for ObjectStore {
    fn eq(&self, other: &Self) -> (r: bool) {
        self.is_within(other) && other.is_within(self)
    }
}

impl vstd::std_specs::cmp::PartialEqSpecImpl for ObjectStore {
    open spec fn obeys_eq_spec() -> bool {
        true
    }

    open spec fn eq_spec(&self, other: &Self) -> bool {
        stores_equal(self.deep_view(), other.deep_view())
    }
}

impl ObjectStore {
    /// Whether all objects of this store are in the other, and are equal to
    /// those.
    fn is_within(&self, other: &ObjectStore) -> (r: bool)
        ensures
            r == store_within(self.deep_view(), other.deep_view()),
    {
        let ghost a = self.deep_view();
        let ghost b = other.deep_view();
        let objects = &self.operations_by_object_id;
        let mut i: usize = 0;
        while i < objects.len()
            invariant
                i <= objects.keys().len(),
                *objects == self.operations_by_object_id,
                a == self.deep_view(),
                b == other.deep_view(),
                forall|j: int|
                    0 <= j < i ==> b.contains_key(#[trigger] objects.keys()[j])
                        && a[objects.keys()[j]].equals(b[objects.keys()[j]]),
            decreases objects.keys().len() - i,
        {
            let id = objects.key_at(i);
            proof {
                objects.lemma_keys();
                assert(objects.keys().contains(id.deep_view()));
                assert(a.contains_key(id.deep_view()));
            }
            match (objects.get(id), other.operations_by_object_id.get(id)) {
                (Some(x), Some(y)) => {
                    if !(*x == *y) {
                        assert(!a[id.deep_view()].equals(b[id.deep_view()]));
                        return false;
                    }
                },
                _ => {
                    assert(!b.contains_key(id.deep_view()));
                    return false;
                },
            }
            i += 1;
        }
        proof {
            objects.lemma_keys();
            assert forall|id: ObjectIDView| #[trigger] a.contains_key(id) implies b.contains_key(id)
                && a[id].equals(b[id]) by {
                assert(objects.keys().contains(id));
                let j = choose|j: int| 0 <= j < objects.keys().len() && objects.keys()[j] == id;
                assert(b.contains_key(objects.keys()[j]));
            }
        }
        true
    }
}

/// The step that reports what an operation gave a field of a map; `None` for
/// an operation that gives no value.
pub fn map_op_to_assign_diff(op: &Operation, map_type: &MapType) -> (r: Option<DiffAction>)
    ensures
        r.deep_view() == map_assign(op.deep_view(), *map_type),
{
    match op {
        Operation::SetValue { object_id, key, value, datatype } => Some(
            DiffAction::SetMapKey(
                object_id.clone(),
                *map_type,
                key.clone(),
                ElementValue::Primitive(value.clone()),
                *datatype,
            ),
        ),
        Operation::Link { object_id, key, value } => Some(
            DiffAction::SetMapKey(
                object_id.clone(),
                *map_type,
                key.clone(),
                ElementValue::Link(value.clone()),
                None,
            ),
        ),
        _ => None,
    }
}

/// The error for a key that names no element of a list, where `text` is the
/// quoted form of the key.
pub fn names_no_element(text: &str) -> (r: AutomergeError)
    ensures
        r.deep_view() == no_such_element(text@),
{
    let start = owned(
        "Attempted to link, set, delete, or increment an object in a list with invalid element ID ",
    );
    AutomergeError::InvalidChange(join(start, text))
}

/// The step that reports what an operation gave an element of a list, which is
/// the one at `after`; `None` for an operation that gives no value, or whose
/// key names no element.
pub fn list_op_to_assign_diff(op: &Operation, sequence_type: &SequenceType, after: u32) -> (r:
    Option<DiffAction>)
    ensures
        r.deep_view() == list_assign(op.deep_view(), *sequence_type, after),
{
    match op {
        Operation::SetValue { object_id, key, value, datatype } => {
            match key.as_element_id() {
                Some(eid) => Some(
                    DiffAction::InsertSequenceElement(
                        object_id.clone(),
                        *sequence_type,
                        after,
                        ElementValue::Primitive(value.clone()),
                        *datatype,
                        eid,
                    ),
                ),
                None => None,
            }
        },
        Operation::Link { object_id, key, value } => {
            match key.as_element_id() {
                Some(eid) => Some(
                    DiffAction::InsertSequenceElement(
                        object_id.clone(),
                        *sequence_type,
                        after,
                        ElementValue::Link(value.clone()),
                        None,
                        eid,
                    ),
                ),
                None => None,
            }
        },
        _ => None,
    }
}

impl MapState {
    /// An empty map.
    pub fn new(map_type: MapType, object_id: ObjectID) -> (r: MapState)
        ensures
            r.deep_view() == MapStateView::fresh(map_type, object_id.deep_view()),
    {
        let r = MapState { operations_by_key: AssocMap::new(), map_type, object_id };
        assert(r.deep_view() =~= MapStateView::fresh(map_type, object_id.deep_view()));
        r
    }

    /// The steps that make the map for a client that has nothing.
    pub fn generate_diffs(&self) -> (r: Vec<Diff>)
        requires
            self.deep_view().wf(),
        ensures
            r.deep_view() == self.deep_view().diffs(),
    {
        let ghost m = self.deep_view();
        let ghost f = |k: Seq<char>| m.field_diff(k);
        let mut diffs: Vec<Diff> = Vec::new();
        if !self.object_id.same(&ObjectID::Root) {
            diffs.push(
                Diff {
                    action: DiffAction::CreateMap(self.object_id.clone(), self.map_type),
                    conflicts: Vec::new(),
                },
            );
            assert(diffs@[0].deep_view().conflicts =~= Seq::<ConflictView>::empty());
        }
        let ghost creation = diffs.deep_view();
        let mut i: usize = 0;
        assert(m.keys.take(0).filter_map(f) =~= Seq::<DiffView>::empty());
        assert(diffs.deep_view() =~= creation + m.keys.take(0).filter_map(f));
        while i < self.operations_by_key.len()
            invariant
                i <= m.keys.len(),
                m == self.deep_view(),
                m.wf(),
                f == (|k: Seq<char>| m.field_diff(k)),
                diffs.deep_view() == creation + m.keys.take(i as int).filter_map(f),
            decreases m.keys.len() - i,
        {
            let ghost before = diffs.deep_view();
            let ghost k = m.keys[i as int];
            proof {
                assert(m.keys.contains(k));
                m.keys.lemma_filter_map_take_succ(f, i as int);
            }
            if let Some(ops) = self.operations_by_key.get(self.operations_by_key.key_at(i)) {
                assert(ops.deep_view() == m.field(k));
                if let Some(op) = ops.active_op() {
                    if let Some(action) = map_op_to_assign_diff(&op.operation, &self.map_type) {
                        let d = Diff { action, conflicts: ops.conflicts() };
                        diffs.push(d);
                        assert(diffs.deep_view() =~= before.push(d.deep_view()));
                    }
                }
            }
            assert(diffs.deep_view() =~= creation + m.keys.take(i + 1).filter_map(f));
            i += 1;
        }
        assert(m.keys.take(i as int) =~= m.keys);
        assert(creation =~= if m.object_id is Root {
            Seq::empty()
        } else {
            seq![
                DiffView {
                    action: ActionView::CreateMap(m.object_id, m.map_type),
                    conflicts: Seq::empty(),
                },
            ]
        });
        diffs
    }

    /// Takes an operation on the field `key` in. Returns what is reported of it,
    /// and the operations that take it back.
    pub fn handle_mutating_op(
        &mut self,
        op_with_metadata: OperationWithMetadata,
        actor_states: &ActorStates,
        key: &Key,
    ) -> (r: Result<(Option<Diff>, Vec<Operation>), AutomergeError>)
        requires
            old(self).deep_view().wf(),
            op_with_metadata.deep_view().op.mutates(),
        ensures
            final(self).deep_view().wf(),
            old(self).deep_view().mutate(
                actor_states.deep_view(),
                op_with_metadata.deep_view(),
                key.deep_view(),
            ) matches Ok((after, diff, undo)) && {
                &&& r is Ok
                &&& final(self).deep_view() == after
                &&& r->Ok_0.0.deep_view() == diff
                &&& r->Ok_0.1.deep_view() == undo
            },
    {
        let ghost m = self.deep_view();
        let ghost states = actor_states.deep_view();
        let ghost op = op_with_metadata.deep_view();
        let ghost before = self.operations_by_key@;
        let ops = self.operations_by_key.get_or_insert(
            key.0.clone(),
            ConcurrentOperations::new(),
        );
        assert(ops.deep_view() == m.field(key.deep_view()));
        let undo = ops.incorporate_new_op(op_with_metadata, actor_states);
        proof {
            let v = self.operations_by_key@[key.deep_view()];
            assert(self.operations_by_key@ == before.insert(key.deep_view(), v));
            lemma_deep_insert(before, key.deep_view(), v);
            let goal = m.with_field(key.deep_view(), v.deep_view());
            assert(self.deep_view() =~= goal);
            assert(v.deep_view() == incorporated(states, m.field(key.deep_view()), op));
            lemma_map_mutate_wf(m, states, op, key.deep_view());
        }
        match self.operations_by_key.get(&key.0) {
            Some(ops) => {
                let ghost field = ops.deep_view();
                assert(self.deep_view().ops.contains_key(key.deep_view()));
                assert(field == self.deep_view().ops[key.deep_view()]);
                let mut action = DiffAction::RemoveMapKey(
                    self.object_id.clone(),
                    self.map_type,
                    key.clone(),
                );
                if let Some(op) = ops.active_op() {
                    assert(field[0].op.assigns());
                    if let Some(set) = map_op_to_assign_diff(&op.operation, &self.map_type) {
                        action = set;
                    }
                }
                let diff = Diff { action, conflicts: ops.conflicts() };
                assert(diff.deep_view() == m.field_report(key.deep_view(), field));
                Ok((Some(diff), undo))
            },
            None => Ok((None, undo)),
        }
    }
}

/// One more element shown.
proof fn lemma_element_diffs_push(l: ListStateView, elems: Seq<ElementIDView>, e: ElementIDView)
    ensures
        l.element_diffs(elems.push(e)) == l.element_diffs(elems) + (match l.element_diff(
            e,
            elems.len() as int,
        ) {
            Some(d) => seq![d],
            None => Seq::<DiffView>::empty(),
        }),
{
    let f = |i: int, e: ElementIDView| l.element_diff(e, i);
    let all = elems.push(e).map(f);
    assert(all.drop_last() =~= elems.map(f));
    assert(all.last() == l.element_diff(e, elems.len() as int));
    assert(l.element_diffs(elems.push(e)) =~= l.element_diffs(elems) + (match l.element_diff(
        e,
        elems.len() as int,
    ) {
        Some(d) => seq![d],
        None => Seq::<DiffView>::empty(),
    }));
}

/// The operation that is shown in the first element that has a value.
fn first_shown<'a>(l: &'a ListState) -> (r: Option<&'a OperationWithMetadata>)
    requires
        l.deep_view().wf(),
    ensures
        match r {
            Some(o) => l.deep_view().first_shown() == Some(o.deep_view()),
            None => l.deep_view().first_shown() is None,
        },
{
    let ghost lv = l.deep_view();
    let ghost order = lv.order();
    let ghost p = |e: ElementIDView| lv.field(e).len() > 0;
    proof {
        grown_list_has_order(lv.ops.dom(), lv.following);
        lemma_order_known(lv.ops.dom(), lv.following);
    }
    let v = match list_ops_in_order(&l.operations_by_elemid, &l.following) {
        Ok(v) => v,
        Err(_) => {
            return None;
        },
    };
    let mut i: usize = 0;
    proof {
        reveal(Seq::filter);
        assert(v@.len() == v.deep_view().len());
    }
    while i < v.len()
        invariant
            i <= v@.len(),
            lv == l.deep_view(),
            order == lv.order(),
            p == (|e: ElementIDView| lv.field(e).len() > 0),
            v.deep_view() == order.map_values(|e: ElementIDView| (e, lv.ops[e])),
            v@.len() == order.len(),
            forall|j: int| 0 <= j < order.len() ==> lv.ops.contains_key(#[trigger] order[j]),
            order.take(i as int).filter(p).len() == 0,
        decreases v@.len() - i,
    {
        let ghost e = order[i as int];
        proof {
            assert(v.deep_view()[i as int] == v@[i as int].deep_view());
            assert(lv.ops.contains_key(e));
            assert(v@[i as int].1.deep_view() == lv.field(e));
            assert(order.take(i + 1) =~= order.take(i as int).push(e));
            order.take(i as int).lemma_filter_push(e, p);
        }
        if let Some(op) = v[i].1.active_op() {
            proof {
                assert(order =~= order.take(i + 1) + order.skip(i + 1));
                Seq::filter_distributes_over_add(order.take(i + 1), order.skip(i + 1), p);
                assert(lv.visible()[0] == e);
            }
            return Some(op);
        }
        i += 1;
    }
    assert(order.take(i as int) =~= order);
    None
}

impl ListState {
    /// An empty list.
    pub fn new(sequence_type: SequenceType, object_id: ObjectID) -> (r: ListState)
        ensures
            r.deep_view() == ListStateView::fresh(sequence_type, object_id.deep_view()),
    {
        let r = ListState {
            operations_by_elemid: AssocMap::new(),
            following: AssocMap::new(),
            insertions: AssocMap::new(),
            max_elem: 0,
            sequence_type,
            object_id,
        };
        assert(r.deep_view() =~= ListStateView::fresh(sequence_type, object_id.deep_view()));
        r
    }

    /// The steps that make the list for a client that has nothing.
    pub fn generate_diffs(&self) -> (r: Vec<Diff>)
        requires
            self.deep_view().wf(),
        ensures
            r.deep_view() == self.deep_view().diffs(),
    {
        let ghost lv = self.deep_view();
        let ghost back = lv.order().reverse();
        let ghost p = |e: ElementIDView| lv.field(e).len() > 0;
        proof {
            grown_list_has_order(lv.ops.dom(), lv.following);
            lemma_order_known(lv.ops.dom(), lv.following);
        }
        let ops_in_order = match list_ops_in_order(&self.operations_by_elemid, &self.following) {
            Ok(v) => v,
            Err(_) => Vec::new(),
        };
        let mut after: u32 = 0;
        let mut diffs: Vec<Diff> = Vec::new();
        let first = Diff {
            action: DiffAction::CreateList(self.object_id.clone(), self.sequence_type),
            conflicts: Vec::new(),
        };
        let ghost creation = first.deep_view();
        diffs.push(first);
        let mut i: usize = ops_in_order.len();
        let ghost mut shown: Seq<ElementIDView> = Seq::empty();
        proof {
            reveal(Seq::filter);
            assert(creation.conflicts =~= Seq::<ConflictView>::empty());
            assert(ops_in_order@.len() == ops_in_order.deep_view().len());
            assert(back.take(0).filter(p) =~= shown);
            assert(lv.element_diffs(shown) =~= Seq::<DiffView>::empty());
            assert(diffs.deep_view() =~= seq![creation] + lv.element_diffs(shown));
        }
        while i > 0
            invariant
                i <= ops_in_order@.len(),
                ops_in_order@.len() == back.len(),
                lv == self.deep_view(),
                lv.wf(),
                back == lv.order().reverse(),
                p == (|e: ElementIDView| lv.field(e).len() > 0),
                ops_in_order.deep_view() == lv.order().map_values(
                    |e: ElementIDView| (e, lv.ops[e]),
                ),
                forall|j: int|
                    0 <= j < lv.order().len() ==> lv.ops.contains_key(#[trigger] lv.order()[j]),
                shown == back.take(back.len() - i).filter(p),
                after == index32(shown.len() as int),
                diffs.deep_view() == seq![creation] + lv.element_diffs(shown),
            decreases i,
        {
            i -= 1;
            let ghost e = lv.order()[i as int];
            let ghost n = back.len() - i;
            let ghost before = diffs.deep_view();
            proof {
                assert(ops_in_order.deep_view()[i as int] == ops_in_order@[i as int].deep_view());
                assert(lv.ops.contains_key(e));
                assert(back[n - 1] == e);
                assert(back.take(n) =~= back.take(n - 1).push(e));
                back.take(n - 1).lemma_filter_push(e, p);
            }
            let ops = ops_in_order[i].1;
            assert(ops.deep_view() == lv.field(e));
            if let Some(op) = ops.active_op() {
                proof {
                    lemma_element_diffs_push(lv, shown, e);
                    shown = shown.push(e);
                }
                if let Some(action) = list_op_to_assign_diff(
                    &op.operation,
                    &self.sequence_type,
                    after,
                ) {
                    let d = Diff { action, conflicts: ops.conflicts() };
                    diffs.push(d);
                    assert(diffs.deep_view() =~= before.push(d.deep_view()));
                }
                assert(diffs.deep_view() =~= seq![creation] + lv.element_diffs(shown));
                after = after.wrapping_add(1);
            }
        }
        assert(back.take(back.len() as int) =~= back);
        let ghost before = diffs.deep_view();
        let last = Diff {
            action: DiffAction::MaxElem(
                self.object_id.clone(),
                self.max_elem,
                self.sequence_type,
            ),
            conflicts: Vec::new(),
        };
        assert(last.deep_view() =~= lv.max_elem_diff(Seq::empty()));
        diffs.push(last);
        assert(diffs.deep_view() =~= before.push(last.deep_view()));
        assert(diffs.deep_view() =~= lv.diffs());
        diffs
    }

    /// Takes an operation on the element that `key` names in. Returns what is
    /// reported of it, and the operations that take it back.
    pub fn handle_mutating_op(
        &mut self,
        op: OperationWithMetadata,
        actor_states: &ActorStates,
        key: &Key,
    ) -> (r: Result<(Option<Diff>, Vec<Operation>), AutomergeError>)
        requires
            old(self).deep_view().wf(),
            op.deep_view().op.mutates(),
        ensures
            final(self).deep_view().wf(),
            match old(self).deep_view().mutate(
                actor_states.deep_view(),
                op.deep_view(),
                key.deep_view(),
            ) {
                Ok((after, diff, undo)) => {
                    &&& r is Ok
                    &&& final(self).deep_view() == after
                    &&& r->Ok_0.0.deep_view() == diff
                    &&& r->Ok_0.1.deep_view() == undo
                },
                Err(e) => {
                    &&& r is Err
                    &&& r->Err_0.deep_view() == e
                    &&& final(self).deep_view() == old(self).deep_view()
                },
            },
    {
        let ghost l = self.deep_view();
        let ghost states = actor_states.deep_view();
        let ghost opv = op.deep_view();
        let elem_id = match key.as_element_id() {
            Some(e) => e,
            None => {
                let text = quoted_text(key.0.as_str());
                return Err(names_no_element(text.as_str()));
            },
        };
        let ghost e = elem_id.deep_view();
        let shown_before = first_shown(self).is_some();
        let ghost before = self.operations_by_elemid@;
        let ops = self.operations_by_elemid.get_or_insert(
            elem_id.clone(),
            ConcurrentOperations::new(),
        );
        assert(ops.deep_view() == l.field(e));
        let undo = ops.incorporate_new_op(op, actor_states);
        proof {
            let v = self.operations_by_elemid@[e];
            assert(self.operations_by_elemid@ == before.insert(e, v));
            lemma_deep_insert(before, e, v);
            assert(self.deep_view() =~= l.with_field(e, v.deep_view()));
            lemma_list_mutate_wf(l, states, opv, e);
        }
        let conflicts = match self.operations_by_elemid.get(&elem_id) {
            Some(ops) => {
                assert(ops.deep_view() == self.deep_view().field(e));
                ops.conflicts()
            },
            None => Vec::new(),
        };
        let action = match first_shown(self) {
            Some(o) => {
                proof {
                    let now = self.deep_view();
                    lemma_shown_assigns(now);
                }
                let value = o.operation.value_given();
                let datatype = o.operation.datatype_given();
                if shown_before {
                    Some(
                        DiffAction::SetSequenceElement(
                            self.object_id.clone(),
                            self.sequence_type,
                            0,
                            value,
                            datatype,
                        ),
                    )
                } else {
                    Some(
                        DiffAction::InsertSequenceElement(
                            self.object_id.clone(),
                            self.sequence_type,
                            0,
                            value,
                            datatype,
                            elem_id,
                        ),
                    )
                }
            },
            None => {
                if shown_before {
                    Some(
                        DiffAction::RemoveSequenceElement(
                            self.object_id.clone(),
                            self.sequence_type,
                            0,
                        ),
                    )
                } else {
                    None
                }
            },
        };
        let diff = match action {
            Some(action) => Some(Diff { action, conflicts }),
            None => None,
        };
        assert(diff.deep_view() == self.deep_view().field_report(l, e));
        Ok((diff, undo))
    }

    /// Takes the insertion of an element after `elem_id` in. Returns what is
    /// reported of it.
    pub fn add_insertion(&mut self, actor_id: &ActorID, elem_id: &ElementID, elem: u32) -> (r:
        Result<Diff, AutomergeError>)
        requires
            old(self).deep_view().wf(),
        ensures
            final(self).deep_view().wf(),
            match old(self).deep_view().insert_after(
                elem_id.deep_view(),
                actor_id.deep_view(),
                elem,
            ) {
                Ok((after, diff, _)) => {
                    &&& r is Ok
                    &&& final(self).deep_view() == after
                    &&& Some(r->Ok_0.deep_view()) == diff
                },
                Err(e) => {
                    &&& r is Err
                    &&& r->Err_0.deep_view() == e
                    &&& final(self).deep_view() == old(self).deep_view()
                },
            },
    {
        let ghost l = self.deep_view();
        let ghost parent = elem_id.deep_view();
        let inserted_elemid = ElementID::SpecificElementID(actor_id.clone(), elem);
        let ghost new = inserted_elemid.deep_view();
        if self.insertions.contains_key(&inserted_elemid) {
            let shown = inserted_elemid.shown();
            let text = join(
                owned("Received an insertion for already present key: "),
                shown.as_str(),
            );
            return Err(AutomergeError::InvalidChange(text));
        }
        let ghost ins = self.insertions@;
        self.insertions.insert(inserted_elemid.clone(), inserted_elemid.clone());
        proof {
            lemma_deep_insert(ins, new, inserted_elemid);
        }
        let ghost fol = self.following@;
        let following_ops = self.following.get_or_insert(elem_id.clone(), Vec::new());
        let ghost list_before = following_ops.deep_view();
        assert(list_before =~= followers(l.following, parent));
        following_ops.push(inserted_elemid.clone());
        assert(following_ops.deep_view() =~= list_before.push(new));
        proof {
            let v = self.following@[parent];
            assert(self.following@ == fol.insert(parent, v));
            lemma_deep_insert(fol, parent, v);
        }
        let ghost opm = self.operations_by_elemid@;
        let ops = self.operations_by_elemid.get_or_insert(
            inserted_elemid,
            ConcurrentOperations::new(),
        );
        assert(ops.deep_view() == l.field(new));
        let conflicts = ops.conflicts();
        proof {
            let v = self.operations_by_elemid@[new];
            assert(self.operations_by_elemid@ == opm.insert(new, v));
            lemma_deep_insert(opm, new, v);
        }
        if elem > self.max_elem {
            self.max_elem = elem;
        }
        proof {
            assert(self.deep_view() =~= l.with_insertion(parent, actor_id.deep_view(), elem));
            lemma_list_insert_wf(l, parent, actor_id.deep_view(), elem);
        }
        Ok(
            Diff {
                action: DiffAction::MaxElem(
                    self.object_id.clone(),
                    self.max_elem,
                    self.sequence_type,
                ),
                conflicts,
            },
        )
    }
}

/// What is shown in a list is a value.
proof fn lemma_shown_assigns(l: ListStateView)
    requires
        l.wf(),
    ensures
        l.first_shown() matches Some(o) ==> o.op.assigns(),
{
    let p = |e: ElementIDView| l.field(e).len() > 0;
    if l.visible().len() > 0 {
        let e = l.visible()[0];
        l.order().lemma_filter_pred(p, 0);
        assert(p(e));
        assert(l.ops.contains_key(e));
        assert(l.field(e)[0].op.assigns());
    }
}

impl ObjectState {
    /// An empty map or table.
    pub fn new_map(map_type: MapType, object_id: ObjectID) -> (r: ObjectState)
        ensures
            r.deep_view() == ObjectView::MapObject(
                MapStateView::fresh(map_type, object_id.deep_view()),
            ),
    {
        ObjectState::MapObject(MapState::new(map_type, object_id))
    }

    /// An empty list or text.
    pub fn new_sequence(sequence_type: SequenceType, object_id: ObjectID) -> (r: ObjectState)
        ensures
            r.deep_view() == ObjectView::List(
                ListStateView::fresh(sequence_type, object_id.deep_view()),
            ),
    {
        ObjectState::List(ListState::new(sequence_type, object_id))
    }

    /// The steps that make the object for a client that has nothing.
    pub fn generate_diffs(&self) -> (r: Vec<Diff>)
        requires
            self.deep_view().wf(),
        ensures
            r.deep_view() == self.deep_view().diffs(),
    {
        match self {
            ObjectState::MapObject(map_state) => map_state.generate_diffs(),
            ObjectState::List(list_state) => list_state.generate_diffs(),
        }
    }

    /// Takes an operation on the field `key` in. Returns what is reported of it,
    /// and the operations that take it back.
    pub fn handle_mutating_op(
        &mut self,
        op_with_metadata: OperationWithMetadata,
        actor_states: &ActorStates,
        key: &Key,
    ) -> (r: Result<(Option<Diff>, Vec<Operation>), AutomergeError>)
        requires
            old(self).deep_view().wf(),
            op_with_metadata.deep_view().op.mutates(),
        ensures
            final(self).deep_view().wf(),
            match old(self).deep_view().mutate(
                actor_states.deep_view(),
                op_with_metadata.deep_view(),
                key.deep_view(),
            ) {
                Ok((after, diff, undo)) => {
                    &&& r is Ok
                    &&& final(self).deep_view() == after
                    &&& r->Ok_0.0.deep_view() == diff
                    &&& r->Ok_0.1.deep_view() == undo
                },
                Err(e) => {
                    &&& r is Err
                    &&& r->Err_0.deep_view() == e
                    &&& final(self).deep_view() == old(self).deep_view()
                },
            },
    {
        match self {
            ObjectState::MapObject(mapstate) => mapstate.handle_mutating_op(
                op_with_metadata,
                actor_states,
                key,
            ),
            ObjectState::List(liststate) => liststate.handle_mutating_op(
                op_with_metadata,
                actor_states,
                key,
            ),
        }
    }
}

/// Puts those of the objects that `diffs` refers to on the stack that are not
/// in `seen`.
fn push_links(next: &mut Vec<ObjectID>, diffs: &Vec<Diff>, seen: &Vec<ObjectID>)
    ensures
        final(next).deep_view() == old(next).deep_view() + not_in(
            links_in(diffs.deep_view()),
            seen.deep_view().to_set(),
        ),
{
    let ghost start = next.deep_view();
    let ghost seen_set = seen.deep_view().to_set();
    let ghost p = |id: ObjectIDView| !seen_set.contains(id);
    let ghost all = diffs.deep_view();
    let mut i: usize = 0;
    proof {
        reveal(Seq::filter);
        assert(links_in(all.take(0)) =~= Seq::<ObjectIDView>::empty());
        assert(next.deep_view() =~= start + not_in(links_in(all.take(0)), seen_set));
    }
    while i < diffs.len()
        invariant
            i <= diffs@.len(),
            all == diffs.deep_view(),
            seen_set == seen.deep_view().to_set(),
            p == (|id: ObjectIDView| !seen_set.contains(id)),
            next.deep_view() == start + not_in(links_in(all.take(i as int)), seen_set),
        decreases diffs@.len() - i,
    {
        let links = diffs[i].links();
        let ghost ls = links.deep_view();
        let ghost base = next.deep_view();
        let mut k: usize = 0;
        proof {
            reveal(Seq::filter);
            assert(base =~= base + ls.take(0).filter(p));
        }
        while k < links.len()
            invariant
                k <= links@.len(),
                ls == links.deep_view(),
                seen_set == seen.deep_view().to_set(),
                p == (|id: ObjectIDView| !seen_set.contains(id)),
                next.deep_view() == base + ls.take(k as int).filter(p),
            decreases links@.len() - k,
        {
            let ghost before = next.deep_view();
            proof {
                assert(ls[k as int] == links@[k as int].deep_view());
                assert(ls.take(k + 1) =~= ls.take(k as int).push(ls[k as int]));
                ls.take(k as int).lemma_filter_push(ls[k as int], p);
            }
            if !has_object(seen, &links[k]) {
                let id = links[k].clone();
                next.push(id);
                assert(next.deep_view() =~= before.push(id.deep_view()));
            }
            assert(next.deep_view() =~= base + ls.take(k + 1).filter(p));
            k += 1;
        }
        proof {
            assert(ls.take(k as int) =~= ls);
            let sofar = links_in(all.take(i as int));
            assert(all.take(i + 1).drop_last() =~= all.take(i as int));
            assert(all.take(i + 1).last() == diffs@[i as int].deep_view());
            assert(links_in(all.take(i + 1)) == sofar + ls);
            Seq::filter_distributes_over_add(sofar, ls, p);
            assert(next.deep_view() =~= start + not_in(links_in(all.take(i + 1)), seen_set));
        }
        i += 1;
    }
    assert(all.take(i as int) =~= all);
}

/// The steps of a list of objects, one object after the other.
spec fn diffs_of_all(store: StoreView, ids: Seq<ObjectIDView>) -> Seq<Seq<DiffView>> {
    ids.map_values(|id: ObjectIDView| store[id].diffs())
}

/// Taking the last object off a list.
proof fn lemma_diffs_backwards_last(store: StoreView, ids: Seq<ObjectIDView>)
    requires
        ids.len() > 0,
    ensures
        diffs_backwards(store, ids) == store[ids.last()].diffs() + diffs_backwards(
            store,
            ids.drop_last(),
        ),
    decreases ids.len(),
{
    if ids.len() == 1 {
        assert(ids.drop_first() =~= Seq::<ObjectIDView>::empty());
        assert(ids.drop_last() =~= Seq::<ObjectIDView>::empty());
        assert(diffs_backwards(store, ids) =~= store[ids.last()].diffs() + diffs_backwards(
            store,
            ids.drop_last(),
        ));
    } else {
        lemma_diffs_backwards_last(store, ids.drop_first());
        assert(ids.drop_first().drop_last() =~= ids.drop_last().drop_first());
        assert(ids.drop_first().last() == ids.last());
        assert(diffs_backwards(store, ids) =~= store[ids.last()].diffs() + diffs_backwards(
            store,
            ids.drop_last(),
        ));
    }
}

impl ObjectStore {
    /// A store that holds nothing but an empty root.
    pub fn new() -> (r: ObjectStore)
        ensures
            r.deep_view() == empty_store(),
            store_wf(r.deep_view()),
    {
        let root = ObjectState::new_map(MapType::PlainMap, ObjectID::Root);
        let mut ops_by_id: AssocMap<ObjectID, ObjectState> = AssocMap::new();
        let ghost none = ops_by_id@;
        ops_by_id.insert(ObjectID::Root, root);
        proof {
            lemma_deep_insert(none, ObjectIDView::Root, root);
            assert(none.map_values(|v: ObjectState| v.deep_view()) =~= Map::<
                ObjectIDView,
                ObjectView,
            >::empty());
        }
        ObjectStore { operations_by_object_id: ops_by_id }
    }

    /// The steps that make the whole document for a client that has nothing.
    pub fn generate_diffs(&self) -> (r: Vec<Diff>)
        requires
            store_wf(self.deep_view()),
        ensures
            r.deep_view() == document_diffs(self.deep_view()),
    {
        let ghost store = self.deep_view();
        let ghost total = document_visits(store);
        let ghost mut visited: Seq<ObjectIDView> = Seq::empty();
        let mut diffs: Vec<Vec<Diff>> = Vec::new();
        let mut seen: Vec<ObjectID> = Vec::new();
        let mut next: Vec<ObjectID> = Vec::new();
        next.push(ObjectID::Root);
        proof {
            assert(next.deep_view() =~= seq![ObjectIDView::Root]);
            assert(seen.deep_view() =~= Seq::<ObjectIDView>::empty());
            assert(seen.deep_view().to_set() =~= Set::<ObjectIDView>::empty());
            assert(total =~= visited + visits(store, next.deep_view(), Set::empty()));
            assert(diffs.deep_view() =~= diffs_of_all(store, visited));
        }
        while next.len() > 0
            invariant
                store == self.deep_view(),
                store_wf(store),
                total == visited + visits(store, next.deep_view(), seen.deep_view().to_set()),
                diffs.deep_view() == diffs_of_all(store, visited),
            decreases
                    store.dom().difference(seen.deep_view().to_set()).len(),
                    count_in(next.deep_view(), seen.deep_view().to_set()),
                    next.len(),
        {
            let ghost stack = next.deep_view();
            let ghost before_seen = seen.deep_view().to_set();
            let ghost id = stack.last();
            let oid = next.pop().unwrap();
            assert(oid.deep_view() == id);
            assert(next.deep_view() =~= stack.drop_last());
            proof {
                lemma_visit_shrinks(store, stack, before_seen, links_in(store[id].diffs()));
            }
            if let Some(object_state) = self.operations_by_object_id.get(&oid) {
                assert(store.contains_key(id));
                assert(object_state.deep_view() == store[id]);
                let new_diffs = object_state.generate_diffs();
                push_links(&mut next, &new_diffs, &seen);
                let ghost all = diffs.deep_view();
                diffs.push(new_diffs);
                assert(diffs.deep_view() =~= all.push(store[id].diffs()));
                let ghost old_seen = seen.deep_view();
                seen.push(oid);
                proof {
                    assert(seen.deep_view() =~= old_seen.push(id));
                    old_seen.lemma_push_to_set_commute(id);
                    let rest = visits(store, next.deep_view(), seen.deep_view().to_set());
                    assert(visits(store, stack, before_seen) == seq![id] + rest);
                    assert(visited + (seq![id] + rest) =~= visited.push(id) + rest);
                    assert(diffs_of_all(store, visited.push(id)) =~= diffs_of_all(
                        store,
                        visited,
                    ).push(store[id].diffs()));
                    visited = visited.push(id);
                }
            }
        }
        assert(visited =~= total);
        let mut r: Vec<Diff> = Vec::new();
        assert(r.deep_view() + diffs_backwards(store, visited) =~= diffs_backwards(store, visited));
        while diffs.len() > 0
            invariant
                diffs.deep_view() == diffs_of_all(store, visited),
                document_diffs(store) == r.deep_view() + diffs_backwards(store, visited),
            decreases diffs.len(),
        {
            let ghost all = diffs.deep_view();
            let ghost done = r.deep_view();
            assert(visited.len() == all.len());
            let mut d = diffs.pop().unwrap();
            let ghost last = d.deep_view();
            r.append(&mut d);
            proof {
                assert(all.last() == last);
                assert(last == store[visited.last()].diffs());
                assert(r.deep_view() =~= done + last);
                lemma_diffs_backwards_last(store, visited);
                assert(done + (last + diffs_backwards(store, visited.drop_last())) =~= (done
                    + last) + diffs_backwards(store, visited.drop_last()));
                assert(diffs.deep_view() =~= all.drop_last());
                assert(all.drop_last() =~= diffs_of_all(store, visited.drop_last()));
                visited = visited.drop_last();
            }
        }
        proof {
            assert(visited.len() == diffs.deep_view().len());
            assert(r.deep_view() + Seq::<DiffView>::empty() =~= r.deep_view());
        }
        r
    }

    /// The operations on an object.
    pub fn history_for_object_id(&self, object_id: &ObjectID) -> (r: Option<&ObjectState>)
        ensures
            r.deep_view() == lookup(self.deep_view(), object_id.deep_view()),
    {
        self.operations_by_object_id.get(object_id)
    }

    /// The operations that hold in a field of an object, if operations came for
    /// it.
    pub fn concurrent_operations_for_field(&self, object_id: &ObjectID, key: &Key) -> (r: Option<
        &ConcurrentOperations,
    >)
        ensures
            r.deep_view() == field_of(self.deep_view(), object_id.deep_view(), key.deep_view()),
    {
        match self.operations_by_object_id.get(object_id) {
            Some(ObjectState::MapObject(m)) => m.operations_by_key.get(&key.0),
            Some(ObjectState::List(l)) => match key.as_element_id() {
                Some(e) => l.operations_by_elemid.get(&e),
                None => None,
            },
            None => None,
        }
    }

    /// Puts a newly made object into the store.
    fn put_object(&mut self, object_id: &ObjectID, object: ObjectState)
        ensures
            final(self).deep_view() == old(self).deep_view().insert(
                object_id.deep_view(),
                object.deep_view(),
            ),
    {
        proof {
            lemma_deep_insert(self.operations_by_object_id@, object_id.deep_view(), object);
        }
        self.operations_by_object_id.insert(object_id.clone(), object);
    }

    /// Takes a new operation in. The caller is responsible for ensuring that
    /// all causal dependencies of the operation have been applied. Returns what
    /// is reported of it, and the operations that take it back; where it returns
    /// an error, the store is as it was.
    pub fn apply_operation(
        &mut self,
        actor_states: &ActorStates,
        op_with_metadata: OperationWithMetadata,
    ) -> (r: Result<(Option<Diff>, Vec<Operation>), AutomergeError>)
        requires
            store_wf(old(self).deep_view()),
        ensures
            store_wf(final(self).deep_view()),
            match applied_op(
                old(self).deep_view(),
                actor_states.deep_view(),
                op_with_metadata.deep_view(),
            ) {
                Ok((after, diff, undo)) => {
                    &&& r is Ok
                    &&& final(self).deep_view() == after
                    &&& r->Ok_0.0.deep_view() == diff
                    &&& r->Ok_0.1.deep_view() == undo
                },
                Err(e) => {
                    &&& r is Err
                    &&& r->Err_0.deep_view() == e
                    &&& final(self).deep_view() == old(self).deep_view()
                },
            },
    {
        let ghost store = self.deep_view();
        let ghost states = actor_states.deep_view();
        let ghost opv = op_with_metadata.deep_view();
        proof {
            lemma_applied_op_wf(store, states, opv);
        }
        let operation = op_with_metadata.operation.clone();
        let action = match operation {
            Operation::MakeMap { object_id } => {
                let object = ObjectState::new_map(MapType::PlainMap, object_id.clone());
                self.put_object(&object_id, object);
                DiffAction::CreateMap(object_id, MapType::PlainMap)
            },
            Operation::MakeTable { object_id } => {
                let object = ObjectState::new_map(MapType::Table, object_id.clone());
                self.put_object(&object_id, object);
                DiffAction::CreateMap(object_id, MapType::Table)
            },
            Operation::MakeList { object_id } => {
                let object = ObjectState::new_sequence(SequenceType::List, object_id.clone());
                self.put_object(&object_id, object);
                DiffAction::CreateList(object_id, SequenceType::List)
            },
            Operation::MakeText { object_id } => {
                let object = ObjectState::new_sequence(SequenceType::Text, object_id.clone());
                self.put_object(&object_id, object);
                DiffAction::CreateList(object_id, SequenceType::Text)
            },
            Operation::Link { object_id, key, .. }
            | Operation::SetValue { object_id, key, .. }
            | Operation::Delete { object_id, key }
            | Operation::Increment { object_id, key, .. } => {
                let ghost before = self.operations_by_object_id@;
                let ghost id = object_id.deep_view();
                match self.operations_by_object_id.get_mut(&object_id) {
                    Some(object) => {
                        assert(store.contains_key(id));
                        assert(object.deep_view() == store[id]);
                        let r = object.handle_mutating_op(op_with_metadata, actor_states, &key);
                        proof {
                            let v = self.operations_by_object_id@[id];
                            assert(self.operations_by_object_id@ == before.insert(id, v));
                            lemma_deep_insert(before, id, v);
                            if r is Err {
                                assert(self.deep_view() =~= store);
                            }
                        }
                        return r;
                    },
                    None => {
                        return Err(AutomergeError::MissingObjectError(object_id));
                    },
                }
            },
            Operation::Insert { list_id, key, elem } => {
                let ghost before = self.operations_by_object_id@;
                let ghost id = list_id.deep_view();
                match self.operations_by_object_id.get_mut(&list_id) {
                    Some(ObjectState::List(liststate)) => {
                        assert(store.contains_key(id));
                        assert(ObjectView::List(liststate.deep_view()) == store[id]);
                        let r = liststate.add_insertion(&op_with_metadata.actor_id, &key, elem);
                        proof {
                            let v = self.operations_by_object_id@[id];
                            assert(self.operations_by_object_id@ == before.insert(id, v));
                            lemma_deep_insert(before, id, v);
                            if r is Err {
                                assert(self.deep_view() =~= store);
                            }
                        }
                        return match r {
                            Ok(diff) => {
                                let undo: Vec<Operation> = Vec::new();
                                assert(undo.deep_view() =~= Seq::empty());
                                Ok((Some(diff), undo))
                            },
                            Err(e) => Err(e),
                        };
                    },
                    Some(ObjectState::MapObject(_)) => {
                        proof {
                            let v = self.operations_by_object_id@[id];
                            assert(self.operations_by_object_id@ =~= before);
                        }
                        let a = list_id.shown();
                        let b = key.shown();
                        let text = join(
                            join(
                                join(
                                    owned("Insert operation received for object key (object ID: "),
                                    a.as_str(),
                                ),
                                ", key: ",
                            ),
                            b.as_str(),
                        );
                        return Err(AutomergeError::InvalidChange(text));
                    },
                    None => {
                        return Err(AutomergeError::MissingObjectError(list_id));
                    },
                }
            },
        };
        let diff = Diff { action, conflicts: Vec::new() };
        let undo: Vec<Operation> = Vec::new();
        assert(undo.deep_view() =~= Seq::empty());
        assert(diff.deep_view().conflicts =~= Seq::empty());
        Ok((Some(diff), undo))
    }
}

} // verus!

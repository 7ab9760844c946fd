//! What holds of the objects of every document.

use vstd::prelude::*;

use crate::actor_states::StatesView;
use crate::clock::ClockView;
use crate::delivery::{progress, OpSetView};
use crate::concurrent_operations::incorporated;
use crate::fields::{at_home, held, touches};
use crate::ids::{element_named, ElementIDView, ObjectIDView};
use crate::list_laws::{
    empty_list_is_made_by_insertions, insertion_makes_the_list, made_by_insertions,
    operation_leaves_the_list_as_made,
};
use crate::objects::{applied_op, empty_store, ListStateView, ObjectView, StoreView};
use crate::protocol::{ChangeView, OpView, OperationView};
use crate::undo_laws::lemma_incorporated_values;

verus! {

impl ObjectView {
    /// The ID that an object carries.
    pub open spec fn id(self) -> ObjectIDView {
        match self {
            ObjectView::MapObject(m) => m.object_id,
            ObjectView::List(l) => l.object_id,
        }
    }
}

/// Whether an operation gives the field `key` of the object `id` a value.
pub open spec fn gives_value(op: OperationView, id: ObjectIDView, key: Seq<char>) -> bool {
    match op {
        OperationView::SetValue { object_id, key: k, .. } => object_id == id && k == key,
        OperationView::Link { object_id, key: k, .. } => object_id == id && k == key,
        _ => false,
    }
}

/// Whether an operation gives the element `e` of the list `id` a value.
pub open spec fn gives_element(op: OperationView, id: ObjectIDView, e: ElementIDView) -> bool {
    match op {
        OperationView::SetValue { object_id, key, .. } => object_id == id && element_named(key)
            == Some(e),
        OperationView::Link { object_id, key, .. } => object_id == id && element_named(key) == Some(
            e,
        ),
        _ => false,
    }
}

/// Whether each field of an object holds operations that give this field of this
/// object a value.
pub open spec fn in_place(object: ObjectView) -> bool {
    match object {
        ObjectView::MapObject(m) => forall|key: Seq<char>, i: int|
            m.ops.contains_key(key) && 0 <= i < m.ops[key].len() ==> gives_value(
                (#[trigger] m.ops[key][i]).op,
                m.object_id,
                key,
            ),
        ObjectView::List(l) => forall|e: ElementIDView, i: int|
            l.ops.contains_key(e) && 0 <= i < l.ops[e].len() ==> gives_element(
                (#[trigger] l.ops[e][i]).op,
                l.object_id,
                e,
            ),
    }
}

/// The root is in the store, each object carries the ID that it is stored under,
/// each field holds operations that give it a value, and each list is made by
/// insertions.
pub open spec fn sound_store(store: StoreView) -> bool {
    &&& store.contains_key(ObjectIDView::Root)
    &&& forall|id: ObjectIDView| #[trigger]
        store.contains_key(id) ==> store[id].id() == id && in_place(store[id]) && (store[id] is List
            ==> made_by_insertions(store[id]->List_0))
}

/// A new operation on a field leaves there operations that give it a value, if it
/// held such before.
proof fn lemma_incorporated_gives(
    s: StatesView,
    field: Seq<OpView>,
    op: OpView,
    p: spec_fn(OperationView) -> bool,
)
    requires
        forall|i: int| 0 <= i < field.len() ==> p((#[trigger] field[i]).op),
        op.op.assigns() ==> p(op.op),
        forall|o: OperationView, by: i64| p(o) ==> p(#[trigger] o.incremented(by)),
    ensures
        forall|i: int|
            0 <= i < incorporated(s, field, op).len() ==> p(
                (#[trigger] incorporated(s, field, op)[i]).op,
            ),
{
    let after = incorporated(s, field, op);
    if !(op.op is Increment) {
        lemma_incorporated_values(s, field, op);
        assert forall|i: int| 0 <= i < after.len() implies p((#[trigger] after[i]).op) by {
            assert(after.contains(after[i]));
            if after[i] != op {
                let j = choose|j: int| 0 <= j < field.len() && field[j] == after[i];
                assert(p(field[j].op));
            }
        }
    } else {
        assert forall|i: int| 0 <= i < after.len() implies p((#[trigger] after[i]).op) by {
            assert(p(field[i].op));
        }
    }
}

/// An operation on a field leaves each operation of an object in its place.
proof fn lemma_mutate_in_place(object: ObjectView, s: StatesView, op: OpView)
    requires
        in_place(object),
        op.op.mutates(),
        op.op.object() == object.id(),
    ensures
        object.mutate(s, op, op.op.field()) matches Ok((after, _, _)) ==> in_place(after),
{
    match object {
        ObjectView::MapObject(m) => {
            let key = op.op.field();
            let p = |o: OperationView| gives_value(o, m.object_id, key);
            let field = m.field(key);
            assert forall|i: int| 0 <= i < field.len() implies p((#[trigger] field[i]).op) by {
                assert(gives_value(m.ops[key][i].op, m.object_id, key));
            }
            lemma_incorporated_gives(s, field, op, p);
            let after = m.with_field(key, incorporated(s, field, op));
            assert forall|k: Seq<char>, i: int|
                after.ops.contains_key(k) && 0 <= i < after.ops[k].len() implies gives_value(
                (#[trigger] after.ops[k][i]).op,
                m.object_id,
                k,
            ) by {
                if k != key {
                    assert(gives_value(m.ops[k][i].op, m.object_id, k));
                } else {
                    assert(p(incorporated(s, field, op)[i].op));
                }
            }
        },
        ObjectView::List(l) => {
            if let Some(e) = element_named(op.op.field()) {
                let p = |o: OperationView| gives_element(o, l.object_id, e);
                let field = l.field(e);
                assert forall|i: int| 0 <= i < field.len() implies p((#[trigger] field[i]).op) by {
                    assert(gives_element(l.ops[e][i].op, l.object_id, e));
                }
                lemma_incorporated_gives(s, field, op, p);
                let after = l.with_field(e, incorporated(s, field, op));
                assert forall|x: ElementIDView, i: int|
                    after.ops.contains_key(x) && 0 <= i < after.ops[x].len() implies gives_element(
                    (#[trigger] after.ops[x][i]).op,
                    l.object_id,
                    x,
                ) by {
                    if x != e {
                        assert(gives_element(l.ops[x][i].op, l.object_id, x));
                    } else {
                        assert(p(incorporated(s, field, op)[i].op));
                    }
                }
            }
        },
    }
}

/// An insertion leaves each operation of a list in its place.
proof fn lemma_insert_in_place(
    l: ListStateView,
    parent: ElementIDView,
    actor: Seq<char>,
    elem: u32,
)
    requires
        in_place(ObjectView::List(l)),
    ensures
        in_place(ObjectView::List(l.with_insertion(parent, actor, elem))),
{
    let after = l.with_insertion(parent, actor, elem);
    assert forall|x: ElementIDView, i: int|
        after.ops.contains_key(x) && 0 <= i < after.ops[x].len() implies gives_element(
        (#[trigger] after.ops[x][i]).op,
        l.object_id,
        x,
    ) by {
        assert(gives_element(l.ops[x][i].op, l.object_id, x));
    }
}

/// In a sound store every operation is kept in the field that it names.
pub proof fn sound_store_is_at_home(store: StoreView)
    requires
        sound_store(store),
    ensures
        at_home(store),
{
    assert forall|id: ObjectIDView, key: Seq<char>, i: int|
        store.contains_key(id) && 0 <= i < held(store, id, key).len() implies touches(
        store,
        (#[trigger] held(store, id, key)[i]).op,
        id,
        key,
    ) by {
        assert(in_place(store[id]));
        match store[id] {
            ObjectView::MapObject(m) => {
                assert(gives_value(m.ops[key][i].op, m.object_id, key));
            },
            ObjectView::List(l) => {
                let e = element_named(key)->Some_0;
                assert(gives_element(l.ops[e][i].op, l.object_id, e));
            },
        }
    }
}

/// The empty document is sound.
pub proof fn empty_store_is_sound()
    ensures
        sound_store(empty_store()),
{
}

/// An operation leaves a store sound, and takes no object out of it.
pub proof fn operation_leaves_the_store_sound(store: StoreView, states: StatesView, op: OpView)
    requires
        sound_store(store),
    ensures
        applied_op(store, states, op) matches Ok((after, _, _)) ==> sound_store(after)
            && store.dom().subset_of(after.dom()),
{
    if let Ok((after, _, _)) = applied_op(store, states, op) {
        let id = op.op.object();
        assert forall|x: ObjectIDView| #[trigger] after.contains_key(x) implies after[x].id() == x
            && in_place(after[x]) && (after[x] is List ==> made_by_insertions(after[x]->List_0)) by {
            if x != id {
                assert(store.contains_key(x));
            } else {
                match op.op {
                    OperationView::MakeList { .. } | OperationView::MakeText { .. } => {
                        let l = after[x]->List_0;
                        empty_list_is_made_by_insertions(l.sequence_type, l.object_id);
                    },
                    OperationView::MakeMap { .. } | OperationView::MakeTable { .. } => {},
                    OperationView::Insert { list_id, key, elem } => {
                        assert(store.contains_key(x));
                        insertion_makes_the_list(store[x]->List_0, key, op.actor, elem);
                        lemma_insert_in_place(store[x]->List_0, key, op.actor, elem);
                    },
                    _ => {
                        assert(store.contains_key(x));
                        lemma_mutate_in_place(store[x], states, op);
                        if let ObjectView::List(l) = store[x] {
                            let e = element_named(op.op.field())->Some_0;
                            operation_leaves_the_list_as_made(l, states, op, e);
                        }
                    },
                }
            }
        }
    }
}

/// The operations of a change leave a store sound, and take no object out of it.
proof fn lemma_progress_leaves_sound(
    store: StoreView,
    s: StatesView,
    c: ChangeView,
    ops: Seq<OperationView>,
)
    requires
        sound_store(store),
    ensures
        sound_store(progress(store, s, c, ops).store),
        store.dom().subset_of(progress(store, s, c, ops).store.dom()),
    decreases ops.len(),
{
    if ops.len() > 0 {
        lemma_progress_leaves_sound(store, s, c, ops.drop_last());
        let p = progress(store, s, c, ops.drop_last());
        operation_leaves_the_store_sound(
            p.store,
            s,
            OpView { seq: c.seq, actor: c.actor, op: ops.last() },
        );
    }
}

proof fn lemma_run_leaves_sound(m: OpSetView)
    requires
        sound_store(m.store),
    ensures
        sound_store(m.run().0.store),
        m.store.dom().subset_of(m.run().0.store.dom()),
    decreases m.queue.len(),
{
    if let Some(i) = m.next_ready() {
        assert(m.first_ready(i));
        let (c, undoable) = m.queue[i];
        let w = m.without(i);
        if let Ok(Some(t)) = w.states.add_change(c) {
            lemma_progress_leaves_sound(m.store, t, c, c.ops);
        }
        let (next, r) = w.apply_ready(c, undoable);
        if r is Ok {
            lemma_run_leaves_sound(next);
        }
    }
}

/// A change that comes in leaves the document sound, also where it is refused, and
/// takes no object out of it.
pub proof fn change_leaves_the_document_sound(m: OpSetView, c: ChangeView, undoable: bool)
    requires
        sound_store(m.store),
    ensures
        sound_store(m.receive(c, undoable).0.store),
        m.store.dom().subset_of(m.receive(c, undoable).0.store.dom()),
{
    lemma_run_leaves_sound(m.queued(c, undoable));
}

/// An undo and a redo leave the document sound, and take no object out of it.
pub proof fn undo_and_redo_leave_the_document_sound(
    m: OpSetView,
    actor: Seq<char>,
    seq: u32,
    message: Option<Seq<char>>,
    deps: ClockView,
)
    requires
        sound_store(m.store),
    ensures
        sound_store(m.undo(actor, seq, message, deps).0.store),
        m.store.dom().subset_of(m.undo(actor, seq, message, deps).0.store.dom()),
        sound_store(m.redo(actor, seq, message, deps).0.store),
        m.store.dom().subset_of(m.redo(actor, seq, message, deps).0.store.dom()),
{
    if 1 <= m.undo_pos <= m.undo_stack.len() {
        let ops = m.undo_stack[m.undo_pos - 1];
        let d = ChangeView { actor, seq, message, deps, ops };
        lemma_run_leaves_sound(m.undo_start().queued(d, false));
    }
    if m.redo_stack.len() > 0 {
        let ops = m.redo_stack.last();
        let e = ChangeView { actor, seq, message, deps, ops };
        lemma_run_leaves_sound(m.redo_start().queued(e, false));
    }
}

} // verus!

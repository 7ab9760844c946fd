//! The fields of all objects, each on its own.

use vstd::prelude::*;

use crate::actor_states::StatesView;
use crate::concurrent_operations::incorporated;
use crate::delivery::progress;
use crate::ids::{element_named, ObjectIDView};
use crate::objects::{applied_op, field_of, ObjectView, StoreView};
use crate::protocol::{ChangeView, OpView, OperationView};
use crate::seqs::lemma_filter_pair;
use crate::text::{lemma_text_lt_irreflexive, lemma_text_lt_transitive, text_lt};

verus! {

/// The operations that hold in a field of an object.
pub open spec fn held(store: StoreView, id: ObjectIDView, key: Seq<char>) -> Seq<OpView> {
    match field_of(store, id, key) {
        Some(field) => field,
        None => Seq::empty(),
    }
}

/// Whether two keys name the same field of an object.
pub open spec fn same_field(object: ObjectView, a: Seq<char>, b: Seq<char>) -> bool {
    match object {
        ObjectView::MapObject(_) => a == b,
        ObjectView::List(_) => element_named(a) is Some && element_named(a) == element_named(b),
    }
}

/// Whether an operation is on the field `key` of the object `id` of a store.
pub open spec fn touches(store: StoreView, op: OperationView, id: ObjectIDView, key: Seq<char>) -> bool {
    op.mutates() && op.object() == id && same_field(store[id], op.field(), key)
}

/// Those of a list of operations that are on the field `key` of the object `id`.
pub open spec fn on_field(
    store: StoreView,
    ops: Seq<OperationView>,
    id: ObjectIDView,
    key: Seq<char>,
) -> Seq<OperationView> {
    ops.filter(|o: OperationView| touches(store, o, id, key))
}

/// Whether one of a list of operations makes the object `id`.
pub open spec fn makes_anew(ops: Seq<OperationView>, id: ObjectIDView) -> bool {
    exists|i: int| 0 <= i < ops.len() && (#[trigger] ops[i]).makes() && ops[i].object() == id
}

/// A field after operations on it that came in one change.
pub open spec fn folded(
    s: StatesView,
    c: ChangeView,
    field: Seq<OpView>,
    ops: Seq<OperationView>,
) -> Seq<OpView>
    decreases ops.len(),
{
    if ops.len() == 0 {
        field
    } else {
        incorporated(
            s,
            folded(s, c, field, ops.drop_last()),
            OpView { seq: c.seq, actor: c.actor, op: ops.last() },
        )
    }
}

/// Two objects that are both maps or both lists.
spec fn alike(a: ObjectView, b: ObjectView) -> bool {
    a is MapObject <==> b is MapObject
}

/// An operation changes the field that it is on, and no other.
proof fn lemma_touched(
    store: StoreView,
    s: StatesView,
    op: OpView,
    id: ObjectIDView,
    key: Seq<char>,
)
    requires
        store.contains_key(id),
        applied_op(store, s, op) is Ok,
        !(op.op.makes() && op.op.object() == id),
    ensures
        ({
            let after = applied_op(store, s, op)->Ok_0.0;
            &&& after.contains_key(id)
            &&& alike(store[id], after[id])
            &&& held(after, id, key) == if touches(store, op.op, id, key) {
                incorporated(s, held(store, id, key), op)
            } else {
                held(store, id, key)
            }
        }),
{
    if op.op.object() == id && !op.op.mutates() {
        assert(op.op is Insert);
    }
}

/// The operations of a change act on each field alone.
pub proof fn lemma_fields_are_apart(
    store: StoreView,
    s: StatesView,
    c: ChangeView,
    ops: Seq<OperationView>,
    id: ObjectIDView,
    key: Seq<char>,
)
    requires
        store.contains_key(id),
        progress(store, s, c, ops).error is None,
        !makes_anew(ops, id),
    ensures
        ({
            let after = progress(store, s, c, ops).store;
            &&& after.contains_key(id)
            &&& after[id] is MapObject <==> store[id] is MapObject
            &&& held(after, id, key) == folded(
                s,
                c,
                held(store, id, key),
                on_field(store, ops, id, key),
            )
        }),
    decreases ops.len(),
{
    let q = |o: OperationView| touches(store, o, id, key);
    if ops.len() == 0 {
        reveal(Seq::filter);
    } else {
        let rest = ops.drop_last();
        let last = ops.last();
        assert(!makes_anew(rest, id)) by {
            if makes_anew(rest, id) {
                let i = choose|i: int|
                    0 <= i < rest.len() && (#[trigger] rest[i]).makes() && rest[i].object() == id;
                assert(ops[i].makes());
            }
        }
        lemma_last_op(store, s, c, ops);
        lemma_fields_are_apart(store, s, c, rest, id, key);
        let before = progress(store, s, c, rest).store;
        let op = OpView { seq: c.seq, actor: c.actor, op: last };
        assert(ops[ops.len() - 1] == last);
        lemma_touched(before, s, op, id, key);
        assert(touches(before, last, id, key) == q(last));
        assert(ops =~= rest.push(last));
        rest.lemma_filter_push(last, q);
        if q(last) {
            assert(rest.filter(q).push(last).drop_last() =~= rest.filter(q));
        }
    }
}

/// What the last operation of a change comes to, if none is refused.
pub proof fn lemma_last_op(
    store: StoreView,
    s: StatesView,
    c: ChangeView,
    ops: Seq<OperationView>,
)
    requires
        ops.len() > 0,
        progress(store, s, c, ops).error is None,
    ensures
        ({
            let before = progress(store, s, c, ops.drop_last());
            let op = OpView { seq: c.seq, actor: c.actor, op: ops.last() };
            &&& before.error is None
            &&& applied_op(before.store, s, op) is Ok
            &&& progress(store, s, c, ops).store == applied_op(before.store, s, op)->Ok_0.0
            &&& progress(store, s, c, ops).undo == if progress(store, s, c, ops).made.contains(
                op.op.object(),
            ) {
                before.undo
            } else {
                before.undo + applied_op(before.store, s, op)->Ok_0.2
            }
        }),
{
}

/// Every operation is kept in the field that it names.
pub open spec fn at_home(store: StoreView) -> bool {
    forall|id: ObjectIDView, key: Seq<char>, i: int|
        store.contains_key(id) && 0 <= i < held(store, id, key).len() ==> touches(
            store,
            (#[trigger] held(store, id, key)[i]).op,
            id,
            key,
        )
}

/// Whether two operations are of the same kind, on the same field.
pub open spec fn akin(a: OperationView, b: OperationView) -> bool {
    a.mutates() == b.mutates() && a.object() == b.object() && a.field() == b.field()
}

/// An operation of a field after a new one is the new one, or one that was in
/// the field, maybe with another value.
pub proof fn lemma_incorporated_from(s: StatesView, field: Seq<OpView>, new: OpView, i: int)
    requires
        0 <= i < incorporated(s, field, new).len(),
    ensures
        incorporated(s, field, new)[i] == new || exists|j: int|
            0 <= j < field.len() && akin(
                (#[trigger] field[j]).op,
                incorporated(s, field, new)[i].op,
            ),
{
    let after = incorporated(s, field, new);
    let x = after[i];
    if new.op is Increment {
        assert(akin(field[i].op, x.op));
    } else {
        let p = |o: OpView| s.concurrent(o, new);
        let kept = field.filter(p);
        assert(x == new || kept.contains(x)) by {
            if new.op.assigns() {
                let q = |o: OpView| text_lt(new.actor, o.actor);
                let r = |o: OpView| !text_lt(new.actor, o.actor);
                let n = kept.filter(q).len() as int;
                if i < n {
                    assert(x == kept.filter(q)[i]);
                    assert(kept.filter(q).contains(x));
                    kept.lemma_filter_contains_rev(q, x);
                } else if i > n {
                    assert(x == kept.filter(r)[i - n - 1]);
                    assert(kept.filter(r).contains(x));
                    kept.lemma_filter_contains_rev(r, x);
                }
            } else {
                assert(kept[i] == x);
            }
        }
        if x != new {
            field.lemma_filter_contains_rev(p, x);
            let j = choose|j: int| 0 <= j < field.len() && field[j] == x;
            assert(akin(field[j].op, x.op));
        }
    }
}

/// An operation goes to the field that it names.
pub proof fn lemma_applied_at_home(store: StoreView, s: StatesView, op: OpView)
    requires
        at_home(store),
    ensures
        applied_op(store, s, op) matches Ok((after, _, _)) ==> at_home(after),
{
    if let Ok((after, _, _)) = applied_op(store, s, op) {
        assert forall|id: ObjectIDView, key: Seq<char>, i: int|
            after.contains_key(id) && 0 <= i < held(after, id, key).len() implies touches(
            after,
            (#[trigger] held(after, id, key)[i]).op,
            id,
            key,
        ) by {
            if op.op.makes() && op.op.object() == id {
                assert(held(after, id, key).len() == 0);
            } else {
                assert(store.contains_key(id));
                lemma_touched(store, s, op, id, key);
                let before = held(store, id, key);
                if touches(store, op.op, id, key) {
                    lemma_incorporated_from(s, before, op, i);
                    let x = held(after, id, key)[i];
                    if x != op {
                        let j = choose|j: int|
                            0 <= j < before.len() && akin((#[trigger] before[j]).op, x.op);
                        assert(touches(store, held(store, id, key)[j].op, id, key));
                    }
                } else {
                    assert(touches(store, held(store, id, key)[i].op, id, key));
                }
            }
        }
    }
}

/// The operations of a change go to the fields that they name.
pub proof fn lemma_progress_at_home(
    store: StoreView,
    s: StatesView,
    c: ChangeView,
    ops: Seq<OperationView>,
)
    requires
        at_home(store),
    ensures
        at_home(progress(store, s, c, ops).store),
    decreases ops.len(),
{
    if ops.len() > 0 {
        lemma_progress_at_home(store, s, c, ops.drop_last());
        let p = progress(store, s, c, ops.drop_last());
        lemma_applied_at_home(p.store, s, OpView { seq: c.seq, actor: c.actor, op: ops.last() });
    }
}

/// Whether the operations of a field stand from those of the last actor to those
/// of the first.
pub open spec fn last_actor_first(field: Seq<OpView>) -> bool {
    forall|i: int, j: int|
        0 <= i < j < field.len() ==> !text_lt(
            (#[trigger] field[i]).actor,
            (#[trigger] field[j]).actor,
        )
}

/// Operations in the order of their actors stay in it where some are left out.
pub proof fn lemma_filter_last_first(field: Seq<OpView>, p: spec_fn(OpView) -> bool)
    requires
        last_actor_first(field),
    ensures
        last_actor_first(field.filter(p)),
{
    let kept = field.filter(p);
    assert forall|i: int, j: int| 0 <= i < j < kept.len() implies !text_lt(
        (#[trigger] kept[i]).actor,
        (#[trigger] kept[j]).actor,
    ) by {
        let (a, b) = lemma_filter_pair(field, p, i, j);
        assert(!text_lt(field[a].actor, field[b].actor));
    }
}

/// The operations of a field stay in the order of their actors, so that the
/// value that is shown is that of the last actor.
pub proof fn last_actor_is_shown(s: StatesView, field: Seq<OpView>, new: OpView)
    requires
        last_actor_first(field),
    ensures
        last_actor_first(incorporated(s, field, new)),
        forall|i: int|
            0 <= i < incorporated(s, field, new).len() ==> !text_lt(
                incorporated(s, field, new)[0].actor,
                (#[trigger] incorporated(s, field, new)[i]).actor,
            ),
{
    let after = incorporated(s, field, new);
    if new.op is Increment {
        assert forall|i: int, j: int| 0 <= i < j < after.len() implies !text_lt(
            (#[trigger] after[i]).actor,
            (#[trigger] after[j]).actor,
        ) by {
            assert(!text_lt(field[i].actor, field[j].actor));
        }
    } else {
        let p = |o: OpView| s.concurrent(o, new);
        let kept = field.filter(p);
        lemma_filter_last_first(field, p);
        if new.op.assigns() {
            let q = |o: OpView| text_lt(new.actor, o.actor);
            let r = |o: OpView| !text_lt(new.actor, o.actor);
            let above = kept.filter(q);
            let below = kept.filter(r);
            let n = above.len() as int;
            lemma_filter_last_first(kept, q);
            lemma_filter_last_first(kept, r);
            lemma_text_lt_irreflexive(new.actor);
            assert forall|i: int, j: int| 0 <= i < j < after.len() implies !text_lt(
                (#[trigger] after[i]).actor,
                (#[trigger] after[j]).actor,
            ) by {
                if i < n {
                    kept.lemma_filter_pred(q, i);
                    assert(after[i] == above[i]);
                }
                if j > n {
                    kept.lemma_filter_pred(r, j - n - 1);
                    assert(after[j] == below[j - n - 1]);
                }
                if j < n {
                    assert(after[j] == above[j]);
                    assert(!text_lt(above[i].actor, above[j].actor));
                } else if i > n {
                    assert(after[i] == below[i - n - 1]);
                    assert(!text_lt(below[i - n - 1].actor, below[j - n - 1].actor));
                } else if text_lt(after[i].actor, after[j].actor) {
                    // `after[i]` is not before the new operation, nor `after[j]` after it.
                    if i < n {
                        lemma_text_lt_transitive(new.actor, after[i].actor, after[j].actor);
                    }
                }
            }
        }
    }
    if after.len() > 0 {
        lemma_text_lt_irreflexive(after[0].actor);
    }
}

} // verus!

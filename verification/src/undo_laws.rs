//! What holds of undoing and redoing changes.

use vstd::prelude::*;

use crate::actor_states::StatesView;
use crate::causal_laws::{
    clock_has_seen_what_was_applied, concurrent_field, concurrent_object, lemma_all_deps,
    lemma_apply_ready_delivered, lemma_extended_keeps, lemma_last_is_next, lemma_new_change,
    lemma_queued_delivered, lemma_run_delivered, lemma_stacks_do_not_matter, lemma_taken_out,
    lemma_waits,
};
use crate::clock::ClockView;
use crate::concurrent_operations::{all_assign, incorporated, opposite, placed, pure_ops, undoing};
use crate::delivery::{lemma_nothing_to_note, progress, redoing, redoing_one, OpSetView};
use crate::diff::DiffView;
use crate::error::ErrorView;
use crate::fields::{
    at_home, folded, held, lemma_fields_are_apart, lemma_last_op, lemma_progress_at_home, makes_anew,
    on_field, touches,
};
use crate::ids::{element_named, ObjectIDView};
use crate::objects::{applied_op, field_of, store_wf, StoreView};
use crate::protocol::{ChangeView, OpView, OperationView};
use crate::seqs::{lemma_filter_all, lemma_filter_holds};
use crate::text::{lemma_text_lt_irreflexive, text_lt};

verus! {

/// Whether all operations of a list are increments.
pub open spec fn all_increments(ops: Seq<OperationView>) -> bool {
    forall|i: int| 0 <= i < ops.len() ==> (#[trigger] ops[i]) is Increment
}

/// Those of a list of operations that give a field a value.
pub open spec fn assigning(ops: Seq<OperationView>) -> Seq<OperationView> {
    ops.filter(|o: OperationView| o.assigns())
}

/// Whether a change builds on the change that an operation came in.
pub open spec fn has_seen(s: StatesView, c: ChangeView, o: OpView) -> bool {
    o.seq <= s.deps_of(c.actor, c.seq).get(o.actor)
}

/// Whether a change builds on all operations of a field.
pub open spec fn builds_on(s: StatesView, c: ChangeView, field: Seq<OpView>) -> bool {
    forall|i: int| 0 <= i < field.len() ==> has_seen(s, c, #[trigger] field[i])
}

/// Whether the operations of a change are concurrent with another operation.
spec fn beside(s: StatesView, c: ChangeView, o: OpView) -> bool {
    s.concurrent(o, OpView { seq: c.seq, actor: c.actor, op: o.op })
}

/// What increments come to together.
pub open spec fn total(ops: Seq<OperationView>) -> i64
    decreases ops.len(),
{
    if ops.len() == 0 {
        0
    } else {
        match ops.last() {
            OperationView::Increment { value, .. } => total(ops.drop_last()).wrapping_add(value),
            _ => total(ops.drop_last()),
        }
    }
}

/// A field with its counters taken up.
pub open spec fn counted(field: Seq<OpView>, by: i64) -> Seq<OpView> {
    field.map_values(|o: OpView| OpView { op: o.op.incremented(by), ..o })
}

proof fn lemma_incremented_twice(op: OperationView, a: i64, b: i64)
    ensures
        op.incremented(a).incremented(b) == op.incremented(a.wrapping_add(b)),
        op.incremented(0) == op,
{
}

proof fn lemma_opposite(a: i64, b: i64)
    ensures
        a.wrapping_add(opposite(a)) == 0,
        opposite(a).wrapping_add(opposite(b)) == opposite(a.wrapping_add(b)),
        opposite(opposite(a)) == a,
{
}

/// A field with those of its counters taken up that a change is not concurrent
/// with.
spec fn partly_counted(s: StatesView, c: ChangeView, field: Seq<OpView>, by: i64) -> Seq<OpView> {
    field.map_values(
        |o: OpView|
            if beside(s, c, o) {
                o
            } else {
                OpView { op: o.op.incremented(by), ..o }
            },
    )
}

/// Increments in a change take up the counters that the change is not concurrent
/// with.
proof fn lemma_folded_increments(
    s: StatesView,
    c: ChangeView,
    field: Seq<OpView>,
    ops: Seq<OperationView>,
)
    requires
        all_increments(ops),
    ensures
        folded(s, c, field, ops) == partly_counted(s, c, field, total(ops)),
        builds_on(s, c, field) ==> folded(s, c, field, ops) == counted(field, total(ops)),
    decreases ops.len(),
{
    let after = folded(s, c, field, ops);
    if ops.len() == 0 {
        assert forall|i: int| 0 <= i < field.len() implies partly_counted(s, c, field, 0)[i]
            == field[i] by {
            lemma_incremented_twice(field[i].op, 0, 0);
        }
        assert(partly_counted(s, c, field, 0) =~= field);
    } else {
        let rest = ops.drop_last();
        assert forall|i: int| 0 <= i < rest.len() implies (#[trigger] rest[i]) is Increment by {
            assert(ops[i] is Increment);
        }
        assert(ops[ops.len() - 1] is Increment);
        lemma_folded_increments(s, c, field, rest);
        let before = folded(s, c, field, rest);
        let new = OpView { seq: c.seq, actor: c.actor, op: ops.last() };
        let by = ops.last()->Increment_value;
        assert forall|i: int| 0 <= i < field.len() implies after[i] == partly_counted(
            s,
            c,
            field,
            total(ops),
        )[i] by {
            assert(s.concurrent(before[i], new) == beside(s, c, field[i]));
            lemma_incremented_twice(field[i].op, total(rest), by);
        }
        assert(after =~= partly_counted(s, c, field, total(ops)));
    }
    if builds_on(s, c, field) {
        assert forall|i: int| 0 <= i < field.len() implies after[i] == counted(
            field,
            total(ops),
        )[i] by {
            assert(has_seen(s, c, field[i]));
        }
        assert(after =~= counted(field, total(ops)));
    }
}

/// What a field holds after an operation that is not an increment: the operations
/// that are concurrent with it, and the value that it gives.
pub proof fn lemma_incorporated_values(s: StatesView, field: Seq<OpView>, new: OpView)
    requires
        !(new.op is Increment),
    ensures
        forall|x: OpView| #[trigger]
            incorporated(s, field, new).contains(x) <==> (field.contains(x) && s.concurrent(x, new))
                || (new.op.assigns() && x == new),
{
    let p = |o: OpView| s.concurrent(o, new);
    let kept = field.filter(p);
    let after = incorporated(s, field, new);
    lemma_filter_holds(field, p);
    if new.op.assigns() {
        let q = |o: OpView| text_lt(new.actor, o.actor);
        let r = |o: OpView| !text_lt(new.actor, o.actor);
        lemma_filter_holds(kept, q);
        lemma_filter_holds(kept, r);
        let above = kept.filter(q);
        let below = kept.filter(r);
        let n = above.len() as int;
        assert(after == above + seq![new] + below);
        assert forall|x: OpView| #[trigger] after.contains(x) <==> kept.contains(x) || x == new by {
            assert(kept.contains(x) <==> above.contains(x) || below.contains(x));
            if above.contains(x) {
                let i = choose|i: int| 0 <= i < above.len() && above[i] == x;
                assert(after[i] == x);
            }
            if below.contains(x) {
                let i = choose|i: int| 0 <= i < below.len() && below[i] == x;
                assert(after[n + 1 + i] == x);
            }
            assert(after[n] == new);
            if after.contains(x) {
                let i = choose|i: int| 0 <= i < after.len() && after[i] == x;
                if i < n {
                    assert(above[i] == x);
                } else if i > n {
                    assert(below[i - n - 1] == x);
                }
            }
        }
    }
}

/// What a field holds after operations of a change that are not all increments:
/// the operations that the change is concurrent with, and the values that it
/// gives.
proof fn lemma_folded_kept(
    s: StatesView,
    c: ChangeView,
    field: Seq<OpView>,
    ops: Seq<OperationView>,
)
    requires
        s.deps_of(c.actor, c.seq).get(c.actor) < c.seq,
        forall|i: int| 0 <= i < ops.len() ==> (#[trigger] ops[i]).mutates(),
        !all_increments(ops),
    ensures
        forall|x: OpView| #[trigger]
            folded(s, c, field, ops).contains(x) <==> (field.contains(x) && beside(s, c, x)) || (
            x.seq == c.seq && x.actor == c.actor && assigning(ops).contains(x.op)),
    decreases ops.len(),
{
    let q = |o: OperationView| o.assigns();
    let rest = ops.drop_last();
    let op = ops.last();
    let new = OpView { seq: c.seq, actor: c.actor, op };
    assert(ops =~= rest.push(op));
    assert(ops[ops.len() - 1] == op);
    rest.lemma_filter_push(op, q);
    assert forall|i: int| 0 <= i < rest.len() implies (#[trigger] rest[i]).mutates() by {
        assert(ops[i].mutates());
    }
    let before = folded(s, c, field, rest);
    let after = folded(s, c, field, ops);
    if !(op is Increment) {
        lemma_incorporated_values(s, before, new);
    }
    if all_increments(rest) {
        assert forall|i: int| 0 <= i < rest.len() implies !q(#[trigger] rest[i]) by {
            assert(rest[i] is Increment);
        }
        rest.lemma_all_neg_filter_empty(q);
        lemma_split_increments(ops);
        lemma_folded_increments(s, c, field, rest);
        assert forall|x: OpView| #[trigger] after.contains(x) <==> (field.contains(x) && beside(
            s,
            c,
            x,
        )) || (x.seq == c.seq && x.actor == c.actor && assigning(ops).contains(x.op)) by {
            if before.contains(x) && beside(s, c, x) {
                let i = choose|i: int| 0 <= i < before.len() && before[i] == x;
                assert(beside(s, c, field[i]) == beside(s, c, x));
                assert(field[i] == x);
            }
            if field.contains(x) && beside(s, c, x) {
                let i = choose|i: int| 0 <= i < field.len() && field[i] == x;
                assert(before[i] == x);
            }
            if op.assigns() {
                assert(assigning(ops) =~= seq![op]);
                assert(assigning(ops)[0] == op);
            } else {
                assert(assigning(ops).len() == 0);
            }
        }
    } else {
        lemma_folded_kept(s, c, field, rest);
        assert forall|x: OpView| #[trigger] before.contains(x) implies s.concurrent(x, new) by {
            assert(before.contains(x));
        }
        if op is Increment {
            assert forall|i: int| 0 <= i < before.len() implies after[i] == before[i] by {
                assert(before.contains(before[i]));
            }
            assert(after =~= before);
        }
        assert forall|x: OpView| #[trigger] after.contains(x) <==> (field.contains(x) && beside(
            s,
            c,
            x,
        )) || (x.seq == c.seq && x.actor == c.actor && assigning(ops).contains(x.op)) by {
            assert(before.contains(x) <==> (field.contains(x) && beside(s, c, x)) || (x.seq == c.seq
                && x.actor == c.actor && assigning(rest).contains(x.op)));
            if op.assigns() {
                let a = assigning(rest);
                assert(assigning(ops) == a.push(op));
                if a.contains(x.op) {
                    let i = choose|i: int| 0 <= i < a.len() && a[i] == x.op;
                    assert(a.push(op)[i] == x.op);
                }
                assert(a.push(op)[a.len() as int] == op);
            }
        }
    }
}

/// All operations of a list are increments if all but the last are and the last
/// is.
proof fn lemma_split_increments(ops: Seq<OperationView>)
    requires
        ops.len() > 0,
    ensures
        all_increments(ops) <==> all_increments(ops.drop_last()) && ops.last() is Increment,
{
    let rest = ops.drop_last();
    if all_increments(ops) {
        assert(ops[ops.len() - 1] is Increment);
        assert forall|i: int| 0 <= i < rest.len() implies (#[trigger] rest[i]) is Increment by {
            assert(ops[i] is Increment);
        }
    }
    if all_increments(rest) && ops.last() is Increment {
        assert forall|i: int| 0 <= i < ops.len() implies (#[trigger] ops[i]) is Increment by {
            if i < rest.len() {
                assert(rest[i] is Increment);
            }
        }
    }
}

/// A field in which a change has put values, the last of them first.
spec fn put(c: ChangeView, ops: Seq<OperationView>) -> Seq<OpView> {
    ops.reverse().map_values(|o: OperationView| OpView { seq: c.seq, actor: c.actor, op: o })
}

/// The first operation that is not an increment, in a change that builds on a
/// field, clears the field.
proof fn lemma_cleared(s: StatesView, c: ChangeView, field: Seq<OpView>, op: OperationView)
    requires
        builds_on(s, c, field),
        op.mutates(),
        !(op is Increment),
    ensures
        incorporated(s, field, OpView { seq: c.seq, actor: c.actor, op }) == put(
            c,
            if op.assigns() {
                seq![op]
            } else {
                Seq::empty()
            },
        ),
{
    let new = OpView { seq: c.seq, actor: c.actor, op };
    let p = |o: OpView| s.concurrent(o, new);
    assert forall|i: int| 0 <= i < field.len() implies !p(#[trigger] field[i]) by {
        assert(has_seen(s, c, field[i]));
    }
    field.lemma_all_neg_filter_empty(p);
    let none = Seq::<OpView>::empty();
    assert(field.filter(p) =~= none);
    if op.assigns() {
        reveal(Seq::filter);
        assert(placed(none, new) =~= seq![new]);
        assert(put(c, seq![op]) =~= seq![new]);
    } else {
        assert(put(c, Seq::empty()) =~= none);
    }
}

/// Further operations of the same change leave what the change has put there,
/// and put more in front of it.
proof fn lemma_put_more(s: StatesView, c: ChangeView, ops: Seq<OperationView>, op: OperationView)
    requires
        s.deps_of(c.actor, c.seq).get(c.actor) < c.seq,
        op.mutates(),
    ensures
        incorporated(s, put(c, ops), OpView { seq: c.seq, actor: c.actor, op }) == put(
            c,
            if op.assigns() {
                ops.push(op)
            } else {
                ops
            },
        ),
{
    let new = OpView { seq: c.seq, actor: c.actor, op };
    let field = put(c, ops);
    assert forall|i: int| 0 <= i < field.len() implies s.concurrent(#[trigger] field[i], new) by {}
    if op is Increment {
        assert(incorporated(s, field, new) =~= field);
    } else {
        let p = |o: OpView| s.concurrent(o, new);
        lemma_filter_all(field, p);
        if op.assigns() {
            let q = |o: OpView| text_lt(new.actor, o.actor);
            let r = |o: OpView| !text_lt(new.actor, o.actor);
            lemma_text_lt_irreflexive(c.actor);
            assert forall|i: int| 0 <= i < field.len() implies !q(#[trigger] field[i]) by {}
            field.lemma_all_neg_filter_empty(q);
            lemma_filter_all(field, r);
            assert(placed(field, new) =~= seq![new] + field);
            assert(put(c, ops.push(op)) =~= seq![new] + field);
        }
    }
}

/// Operations of a change that builds on a field, not all of them increments,
/// leave in the field the values that they give it.
proof fn lemma_folded_values(
    s: StatesView,
    c: ChangeView,
    field: Seq<OpView>,
    ops: Seq<OperationView>,
)
    requires
        builds_on(s, c, field),
        s.deps_of(c.actor, c.seq).get(c.actor) < c.seq,
        forall|i: int| 0 <= i < ops.len() ==> (#[trigger] ops[i]).mutates(),
        !all_increments(ops),
    ensures
        folded(s, c, field, ops) == put(c, assigning(ops)),
        pure_ops(folded(s, c, field, ops)) == assigning(ops).reverse(),
    decreases ops.len(),
{
    let q = |o: OperationView| o.assigns();
    let rest = ops.drop_last();
    let op = ops.last();
    assert(ops =~= rest.push(op));
    assert(ops[ops.len() - 1] == op);
    rest.lemma_filter_push(op, q);
    assert forall|i: int| 0 <= i < rest.len() implies (#[trigger] rest[i]).mutates() by {
        assert(ops[i].mutates());
    }
    if all_increments(rest) {
        assert forall|i: int| 0 <= i < rest.len() implies !q(#[trigger] rest[i]) by {
            assert(rest[i] is Increment);
        }
        rest.lemma_all_neg_filter_empty(q);
        lemma_split_increments(ops);
        lemma_folded_increments(s, c, field, rest);
        let before = folded(s, c, field, rest);
        assert(builds_on(s, c, before)) by {
            assert forall|i: int| 0 <= i < before.len() implies has_seen(
                s,
                c,
                #[trigger] before[i],
            ) by {
                assert(has_seen(s, c, field[i]));
            }
        }
        lemma_cleared(s, c, before, op);
        assert(assigning(ops) =~= if op.assigns() {
            seq![op]
        } else {
            Seq::empty()
        });
    } else {
        lemma_folded_values(s, c, field, rest);
        lemma_put_more(s, c, assigning(rest), op);
    }
    assert(pure_ops(put(c, assigning(ops))) =~= assigning(ops).reverse());
}

/// The operations that are noted to take back the operations of a change on a
/// field.
pub open spec fn noted(
    s: StatesView,
    c: ChangeView,
    field: Seq<OpView>,
    ops: Seq<OperationView>,
) -> Seq<OperationView>
    decreases ops.len(),
{
    if ops.len() == 0 {
        Seq::empty()
    } else {
        noted(s, c, field, ops.drop_last()) + undoing(
            folded(s, c, field, ops.drop_last()),
            ops.last(),
        )
    }
}

/// An object that a change has made was made by one of its operations.
proof fn lemma_made(
    store: StoreView,
    s: StatesView,
    c: ChangeView,
    ops: Seq<OperationView>,
    id: ObjectIDView,
)
    requires
        progress(store, s, c, ops).made.contains(id),
    ensures
        makes_anew(ops, id),
    decreases ops.len(),
{
    if ops.len() > 0 {
        let rest = ops.drop_last();
        if progress(store, s, c, rest).made.contains(id) {
            lemma_made(store, s, c, rest, id);
            let i = choose|i: int|
                0 <= i < rest.len() && (#[trigger] rest[i]).makes() && rest[i].object() == id;
            assert(ops[i].makes() && ops[i].object() == id);
        } else {
            assert(ops[ops.len() - 1].makes() && ops[ops.len() - 1].object() == id);
        }
    }
}

/// What takes an operation on a field back is on the same field.
proof fn lemma_undoing_stays(
    store: StoreView,
    op: OperationView,
    id: ObjectIDView,
    key: Seq<char>,
)
    requires
        at_home(store),
        store.contains_key(op.object()),
        op.mutates(),
        store[op.object()] is List ==> element_named(op.field()) is Some,
    ensures
        ({
            let undo = undoing(held(store, op.object(), op.field()), op);
            on_field(store, undo, id, key) == if touches(store, op, id, key) {
                undo
            } else {
                Seq::empty()
            }
        }),
{
    let field = held(store, op.object(), op.field());
    let undo = undoing(field, op);
    let q = |o: OperationView| touches(store, o, id, key);
    assert forall|i: int| 0 <= i < undo.len() implies q(#[trigger] undo[i]) == touches(
        store,
        op,
        id,
        key,
    ) by {
        if !(op is Increment) && field.len() > 0 {
            assert(undo[i] == field[i].op);
            assert(touches(
                store,
                held(store, op.object(), op.field())[i].op,
                op.object(),
                op.field(),
            ));
        }
    }
    if touches(store, op, id, key) {
        lemma_filter_all(undo, q);
    } else {
        undo.lemma_all_neg_filter_empty(q);
    }
}

/// What is noted to take an operation back: what takes it back in its field.
proof fn lemma_applied_undo(store: StoreView, s: StatesView, op: OpView)
    requires
        applied_op(store, s, op) is Ok,
    ensures
        op.op.mutates() ==> {
            &&& store.contains_key(op.op.object())
            &&& store[op.op.object()] is List ==> element_named(op.op.field()) is Some
            &&& applied_op(store, s, op)->Ok_0.2 == undoing(
                held(store, op.op.object(), op.op.field()),
                op.op,
            )
        },
        !op.op.mutates() ==> applied_op(store, s, op)->Ok_0.2 == Seq::<OperationView>::empty(),
{
}

/// Of what is noted to take an operation back, that which is on a field.
proof fn lemma_applied_undo_on_field(
    store: StoreView,
    s: StatesView,
    op: OpView,
    id: ObjectIDView,
    key: Seq<char>,
)
    requires
        at_home(store),
        applied_op(store, s, op) is Ok,
    ensures
        on_field(store, applied_op(store, s, op)->Ok_0.2, id, key) == if touches(
            store,
            op.op,
            id,
            key,
        ) {
            undoing(held(store, id, key), op.op)
        } else {
            Seq::empty()
        },
{
    lemma_applied_undo(store, s, op);
    if op.op.mutates() {
        lemma_undoing_stays(store, op.op, id, key);
        if touches(store, op.op, id, key) {
            assert(held(store, id, op.op.field()) == held(store, id, key));
        }
    } else {
        reveal(Seq::filter);
    }
}

/// What is noted for one more operation is put after what was noted before.
proof fn lemma_noted_push(
    store: StoreView,
    s: StatesView,
    c: ChangeView,
    rest: Seq<OperationView>,
    last: OperationView,
    before: Seq<OperationView>,
    undo: Seq<OperationView>,
    id: ObjectIDView,
    key: Seq<char>,
)
    requires
        ({
            let field = held(store, id, key);
            let ops = on_field(store, rest, id, key);
            &&& on_field(store, before, id, key) == noted(s, c, field, ops)
            &&& on_field(store, undo, id, key) == if touches(store, last, id, key) {
                undoing(folded(s, c, field, ops), last)
            } else {
                Seq::empty()
            }
        }),
    ensures
        ({
            let all = noted(s, c, held(store, id, key), on_field(store, rest.push(last), id, key));
            &&& on_field(store, before + undo, id, key) == all
            &&& !touches(store, last, id, key) ==> on_field(store, before, id, key) == all
        }),
{
    let q = |o: OperationView| touches(store, o, id, key);
    rest.lemma_filter_push(last, q);
    Seq::filter_distributes_over_add(before, undo, q);
    if q(last) {
        assert(rest.filter(q).push(last).drop_last() =~= rest.filter(q));
    } else {
        assert(before.filter(q) + Seq::<OperationView>::empty() =~= before.filter(q));
    }
}

/// What the last operation of a change does to a field, and what is noted to take
/// it back there.
proof fn lemma_last_undo(
    store: StoreView,
    s: StatesView,
    c: ChangeView,
    ops: Seq<OperationView>,
    id: ObjectIDView,
    key: Seq<char>,
)
    requires
        at_home(store),
        store.contains_key(id),
        ops.len() > 0,
        progress(store, s, c, ops).error is None,
        !makes_anew(ops, id),
    ensures
        ({
            let p = progress(store, s, c, ops.drop_last());
            let next = progress(store, s, c, ops);
            let last = ops.last();
            let undo = applied_op(
                p.store,
                s,
                OpView { seq: c.seq, actor: c.actor, op: last },
            )->Ok_0.2;
            &&& p.error is None
            &&& !makes_anew(ops.drop_last(), id)
            &&& next.undo == p.undo + undo || (next.undo == p.undo && !touches(
                store,
                last,
                id,
                key,
            ))
            &&& on_field(store, undo, id, key) == if touches(store, last, id, key) {
                undoing(
                    folded(
                        s,
                        c,
                        held(store, id, key),
                        on_field(store, ops.drop_last(), id, key),
                    ),
                    last,
                )
            } else {
                Seq::empty()
            }
        }),
{
    let rest = ops.drop_last();
    let last = ops.last();
    let op = OpView { seq: c.seq, actor: c.actor, op: last };
    let p = progress(store, s, c, rest);
    assert(!makes_anew(rest, id)) by {
        if makes_anew(rest, id) {
            let i = choose|i: int|
                0 <= i < rest.len() && (#[trigger] rest[i]).makes() && rest[i].object() == id;
            assert(ops[i].makes());
        }
    }
    lemma_last_op(store, s, c, ops);
    lemma_fields_are_apart(store, s, c, rest, id, key);
    lemma_progress_at_home(store, s, c, rest);
    let q = |o: OperationView| touches(store, o, id, key);
    let r = |o: OperationView| touches(p.store, o, id, key);
    assert(r =~= q);
    lemma_applied_undo_on_field(p.store, s, op, id, key);
    assert(!progress(store, s, c, ops).made.contains(id)) by {
        if progress(store, s, c, ops).made.contains(id) {
            lemma_made(store, s, c, ops, id);
        }
    }
}

/// Of what is noted to take a change back, that which is on a field is what
/// takes the operations on that field back.
proof fn lemma_noted(
    store: StoreView,
    s: StatesView,
    c: ChangeView,
    ops: Seq<OperationView>,
    id: ObjectIDView,
    key: Seq<char>,
)
    requires
        at_home(store),
        store.contains_key(id),
        progress(store, s, c, ops).error is None,
        !makes_anew(ops, id),
    ensures
        on_field(store, progress(store, s, c, ops).undo, id, key) == noted(
            s,
            c,
            held(store, id, key),
            on_field(store, ops, id, key),
        ),
    decreases ops.len(),
{
    if ops.len() == 0 {
        reveal(Seq::filter);
    } else {
        let rest = ops.drop_last();
        let last = ops.last();
        let p = progress(store, s, c, rest);
        let undo = applied_op(
            p.store,
            s,
            OpView { seq: c.seq, actor: c.actor, op: last },
        )->Ok_0.2;
        lemma_last_undo(store, s, c, ops, id, key);
        lemma_noted(store, s, c, rest, id, key);
        lemma_noted_push(store, s, c, rest, last, p.undo, undo, id, key);
        assert(ops =~= rest.push(last));
    }
}

/// A run that adds nothing to the history changes nothing but the queue.
proof fn lemma_idle_run(m: OpSetView)
    requires
        m.delivered(),
        m.run().1 is Ok,
        m.run().0.states.history.len() == m.states.history.len(),
    ensures
        m.run().0 == (OpSetView { queue: m.run().0.queue, ..m }),
    decreases m.queue.len(),
{
    if let Some(i) = m.next_ready() {
        let (c, undoable) = m.queue[i];
        let w = m.without(i);
        lemma_taken_out(m, i);
        lemma_apply_ready_delivered(w, c, undoable);
        let (next, r) = w.apply_ready(c, undoable);
        lemma_run_delivered(next);
        match w.states.add_change(c) {
            Ok(Some(t)) => {
                assert(next.states.history.len() == m.states.history.len() + 1);
            },
            _ => {
                lemma_idle_run(next);
            },
        }
    }
}

/// A change that comes in alone: it is applied, and no other is.
pub open spec fn comes_alone(m: OpSetView, c: ChangeView, undoable: bool) -> bool {
    let (after, r) = m.receive(c, undoable);
    &&& c.seq >= 1
    &&& m.next_ready() is None
    &&& r is Ok
    &&& after.states.history == m.states.history.push(c)
}

/// What a change that comes in alone does is what its operations do.
proof fn lemma_comes_alone(m: OpSetView, c: ChangeView, undoable: bool)
    requires
        m.delivered(),
        comes_alone(m, c, undoable),
    ensures
        ({
            let after = m.receive(c, undoable).0;
            let s = m.states.extended(c);
            let p = progress(m.store, s, c, c.ops);
            &&& m.ready(c)
            &&& c.seq == m.states.log(c.actor).len() + 1
            &&& p.error is None
            &&& after.store == p.store
            &&& after.states == s
            &&& after.clock == m.clock.with(c.actor, c.seq)
            &&& after.redo_stack == m.redo_stack
            &&& undoable ==> after.undo_stack == m.undo_stack.take(m.undo_pos as int).push(p.undo)
                && after.undo_pos == m.undo_pos + 1
            &&& !undoable ==> after.undo_stack == m.undo_stack && after.undo_pos == m.undo_pos
            &&& after.delivered()
            &&& after.next_ready() is None
            &&& m.complete() ==> after.complete()
        }),
{
    let h = m.states.history;
    if !m.ready(c) {
        lemma_waits(m, c, undoable);
        assert(h.len() == h.push(c).len());
    }
    let q = m.queued(c, undoable);
    let after = q.run().0;
    lemma_last_is_next(m, c, undoable);
    lemma_queued_delivered(m, c, undoable);
    lemma_run_delivered(q);
    if m.complete() {
        clock_has_seen_what_was_applied(m, c, undoable);
    }
    let n = m.queue.len() as int;
    assert(q.queue[n] == (c, undoable));
    assert(q.without(n) == m);
    lemma_apply_ready_delivered(m, c, undoable);
    let (next, r) = m.apply_ready(c, undoable);
    lemma_run_delivered(next);
    match m.states.add_change(c) {
        Ok(Some(t)) => {
            lemma_new_change(m, c);
            lemma_idle_run(next);
        },
        Ok(None) => {
            assert(m.run().0 == m);
            assert(h.len() == h.push(c).len());
        },
        Err(_) => {},
    }
}

/// A change that has seen all that was applied builds on all operations.
proof fn lemma_builds_on_all(
    m: OpSetView,
    c: ChangeView,
    id: ObjectIDView,
    key: Seq<char>,
)
    requires
        m.delivered(),
        m.complete(),
        m.clock.within(c.needs()),
        c.seq == m.states.log(c.actor).len() + 1,
        m.ready(c),
        m.store.contains_key(id),
    ensures
        builds_on(m.states.extended(c), c, held(m.store, id, key)),
        m.states.extended(c).deps_of(c.actor, c.seq).get(c.actor) < c.seq,
{
    let s = m.states;
    let t = s.extended(c);
    let field = held(m.store, id, key);
    lemma_extended_keeps(s, c);
    lemma_new_change(m, c);
    assert(t.applied(c.actor, c.seq) is Some);
    assert(concurrent_object(s, m.store[id]));
    assert(concurrent_field(s, field));
    assert forall|i: int| 0 <= i < field.len() implies has_seen(t, c, #[trigger] field[i]) by {
        let a = field[i].actor;
        assert(s.knows(field[i]));
        assert(m.clock.get(a) == s.log(a).len());
        assert(m.clock.get(a) <= c.needs().get(a));
        lemma_all_deps(s, c.needs(), a);
    }
}

/// An undo with which no change is applied but its own.
pub open spec fn undone_alone(
    m: OpSetView,
    actor: Seq<char>,
    seq: u32,
    message: Option<Seq<char>>,
    deps: ClockView,
) -> bool {
    let (after, r) = m.undo(actor, seq, message, deps);
    &&& seq >= 1
    &&& m.next_ready() is None
    &&& 1 <= m.undo_pos <= m.undo_stack.len()
    &&& r is Ok
    &&& after.states.history == m.states.history.push(
        ChangeView { actor, seq, message, deps, ops: m.undo_stack[m.undo_pos - 1] },
    )
}

/// A redo with which no change is applied but its own.
pub open spec fn redone_alone(
    m: OpSetView,
    actor: Seq<char>,
    seq: u32,
    message: Option<Seq<char>>,
    deps: ClockView,
) -> bool {
    let (after, r) = m.redo(actor, seq, message, deps);
    &&& seq >= 1
    &&& m.next_ready() is None
    &&& m.redo_stack.len() > 0
    &&& r is Ok
    &&& after.states.history == m.states.history.push(
        ChangeView { actor, seq, message, deps, ops: m.redo_stack.last() },
    )
}

/// What a change does to a field that has seen all that was applied, and with
/// which no other change is applied.
proof fn lemma_field_after(m: OpSetView, c: ChangeView, id: ObjectIDView, key: Seq<char>)
    requires
        m.delivered(),
        m.complete(),
        comes_alone(m, c, false),
        m.clock.within(c.needs()),
        m.store.contains_key(id),
        !makes_anew(c.ops, id),
    ensures
        ({
            let after = m.receive(c, false).0;
            let ops = on_field(m.store, c.ops, id, key);
            &&& after.store.contains_key(id)
            &&& after.store[id] is MapObject <==> m.store[id] is MapObject
            &&& all_increments(ops) ==> held(after.store, id, key) == counted(
                held(m.store, id, key),
                total(ops),
            )
            &&& !all_increments(ops) ==> pure_ops(held(after.store, id, key)) == assigning(
                ops,
            ).reverse()
        }),
{
    lemma_comes_alone(m, c, false);
    let s = m.states.extended(c);
    let ops = on_field(m.store, c.ops, id, key);
    lemma_builds_on_all(m, c, id, key);
    lemma_fields_are_apart(m.store, s, c, c.ops, id, key);
    if all_increments(ops) {
        lemma_folded_increments(s, c, held(m.store, id, key), ops);
    } else {
        lemma_all_touch(m.store, c.ops, id, key);
        lemma_folded_values(s, c, held(m.store, id, key), ops);
    }
}

proof fn lemma_all_touch(
    store: StoreView,
    ops: Seq<OperationView>,
    id: ObjectIDView,
    key: Seq<char>,
)
    ensures
        forall|i: int|
            0 <= i < on_field(store, ops, id, key).len() ==> touches(
                store,
                #[trigger] on_field(store, ops, id, key)[i],
                id,
                key,
            ),
{
    let q = |o: OperationView| touches(store, o, id, key);
    assert forall|i: int| 0 <= i < on_field(store, ops, id, key).len() implies touches(
        store,
        #[trigger] on_field(store, ops, id, key)[i],
        id,
        key,
    ) by {
        ops.lemma_filter_pred(q, i);
    }
}

proof fn lemma_same_queue(m: OpSetView, n: OpSetView)
    requires
        m.delivered(),
        n.store == m.store,
        n.queue == m.queue,
        n.clock == m.clock,
        n.states == m.states,
    ensures
        n.delivered(),
        m.next_ready() is None ==> n.next_ready() is None,
        m.complete() ==> n.complete(),
{
    lemma_stacks_do_not_matter(m, n);
    assert forall|i: int| n.first_ready(i) implies m.first_ready(i) by {
        assert forall|j: int| 0 <= j < i implies !m.ready((#[trigger] m.queue[j]).0) by {
            assert(!n.ready(n.queue[j].0));
        }
    }
    if m.complete() {
        assert forall|a: Seq<char>| #[trigger] n.clock.get(a) == n.states.log(a).len() by {
            assert(m.clock.get(a) == m.states.log(a).len());
        }
    }
}

/// After an undo by a change that has seen all that was applied, each field holds
/// what was noted for it: the values noted, the last of them first; or, where only
/// increments were noted, its counters are taken up by these.
pub proof fn undo_leaves_what_was_noted(
    m: OpSetView,
    actor: Seq<char>,
    seq: u32,
    message: Option<Seq<char>>,
    deps: ClockView,
    id: ObjectIDView,
    key: Seq<char>,
)
    requires
        m.delivered(),
        m.complete(),
        undone_alone(m, actor, seq, message, deps),
        m.clock.within(deps.with(actor, (seq - 1) as u32)),
        m.store.contains_key(id),
        !makes_anew(m.undo_stack[m.undo_pos - 1], id),
    ensures
        ({
            let after = m.undo(actor, seq, message, deps).0;
            let ops = on_field(m.store, m.undo_stack[m.undo_pos - 1], id, key);
            if all_increments(ops) {
                held(after.store, id, key) == counted(held(m.store, id, key), total(ops))
            } else {
                pure_ops(held(after.store, id, key)) == assigning(ops).reverse()
            }
        }),
{
    let x = m.undo_start();
    lemma_same_queue(m, x);
    let d = ChangeView { actor, seq, message, deps, ops: m.undo_stack[m.undo_pos - 1] };
    lemma_field_after(x, d, id, key);
}

/// A change `d` that comes right after a change `c`, and builds on it, builds on
/// all that `c` builds on.
proof fn lemma_follows(
    m: OpSetView,
    c: ChangeView,
    one: OpSetView,
    d: ChangeView,
    id: ObjectIDView,
    key: Seq<char>,
)
    requires
        m.delivered(),
        c.seq >= 1,
        m.ready(c),
        c.seq == m.states.log(c.actor).len() + 1,
        one.delivered(),
        one.states == m.states.extended(c),
        d.seq >= 1,
        one.ready(d),
        d.seq == one.states.log(d.actor).len() + 1,
        c.seq <= d.needs().get(c.actor),
        m.store.contains_key(id),
    ensures
        follows(m.states.extended(c), c, one.states.extended(d), d, held(m.store, id, key)),
{
    let s = m.states.extended(c);
    let t = one.states.extended(d);
    let field = held(m.store, id, key);
    lemma_extended_keeps(m.states, c);
    lemma_new_change(m, c);
    lemma_extended_keeps(s, d);
    lemma_new_change(one, d);
    assert(s.applied(c.actor, c.seq) is Some);
    assert(t.applied(d.actor, d.seq) is Some);
    assert(concurrent_object(m.states, m.store[id]));
    assert(concurrent_field(m.states, field));
    assert(d.needs().get(c.actor) <= one.clock.get(c.actor));
    assert(one.clock.get(c.actor) <= s.log(c.actor).len());
    lemma_all_deps(s, d.needs(), c.actor);
    assert forall|i: int| 0 <= i < field.len() implies {
        &&& beside(s, c, #[trigger] field[i]) == !has_seen(s, c, field[i])
        &&& beside(t, d, field[i]) == !has_seen(t, d, field[i])
        &&& has_seen(s, c, field[i]) ==> has_seen(t, d, field[i])
    } by {
        let o = field[i];
        assert(m.states.knows(o));
        assert(m.states.applied(o.actor, o.seq) is Some);
        assert(s.applied(o.actor, o.seq) is Some);
        assert(s.deps_of(o.actor, o.seq) == m.states.deps_of(o.actor, o.seq));
        assert(t.deps_of(o.actor, o.seq) == s.deps_of(o.actor, o.seq));
        assert(m.states.deps_of(o.actor, o.seq).get(c.actor) <= m.states.log(c.actor).len());
        assert(s.deps_of(o.actor, o.seq).get(d.actor) <= s.log(d.actor).len());
        lemma_all_deps(s, d.needs(), o.actor);
        let n = s.deps_of(c.actor, d.needs().get(c.actor)).get(o.actor);
        assert(s.reaches(d.needs(), o.actor, n));
    }
}

/// How the operations of a field lie before a change `c` and a change `d` that
/// comes right after it and builds on it.
spec fn follows(
    s: StatesView,
    c: ChangeView,
    t: StatesView,
    d: ChangeView,
    field: Seq<OpView>,
) -> bool {
    &&& s.deps_of(c.actor, c.seq).get(c.actor) < c.seq
    &&& t.deps_of(d.actor, d.seq).get(d.actor) < d.seq
    &&& c.seq <= t.deps_of(d.actor, d.seq).get(c.actor)
    &&& forall|i: int|
        0 <= i < field.len() ==> {
            &&& beside(s, c, #[trigger] field[i]) == !has_seen(s, c, field[i])
            &&& beside(t, d, field[i]) == !has_seen(t, d, field[i])
            &&& has_seen(s, c, field[i]) ==> has_seen(t, d, field[i])
        }
}

/// Whether increments in a change `c` change no counter of a field that `c` has
/// not seen and `d` has: increments in `d` change it.
pub open spec fn evenly_counted(
    s: StatesView,
    c: ChangeView,
    t: StatesView,
    d: ChangeView,
    field: Seq<OpView>,
    ops: Seq<OperationView>,
) -> bool {
    forall|i: int, j: int|
        0 <= i < field.len() && 0 <= j < ops.len() && !has_seen(s, c, #[trigger] field[i])
            && has_seen(t, d, field[i]) ==> field[i].op.incremented(
            (#[trigger] ops[j])->Increment_value,
        ) == field[i].op
}

proof fn lemma_unmoved(op: OperationView, ops: Seq<OperationView>)
    requires
        all_increments(ops),
        forall|j: int|
            0 <= j < ops.len() ==> op.incremented((#[trigger] ops[j])->Increment_value) == op,
    ensures
        op.incremented(total(ops)) == op,
        op.incremented(opposite(total(ops))) == op,
    decreases ops.len(),
{
    if ops.len() > 0 {
        let rest = ops.drop_last();
        lemma_split_increments(ops);
        assert forall|j: int| 0 <= j < rest.len() implies op.incremented(
            (#[trigger] rest[j])->Increment_value,
        ) == op by {
            assert(rest[j] == ops[j]);
        }
        lemma_unmoved(op, rest);
        let by = ops[ops.len() - 1]->Increment_value;
        assert(op.incremented(by) == op);
        lemma_incremented_twice(op, total(rest), by);
    }
    lemma_opposite(total(ops), 0);
    lemma_incremented_twice(op, total(ops), opposite(total(ops)));
}

/// A field on which a change has operations, and the next change those that take
/// them back, holds the values again that it held before.
proof fn lemma_returned(
    s: StatesView,
    c: ChangeView,
    t: StatesView,
    d: ChangeView,
    field: Seq<OpView>,
    ops: Seq<OperationView>,
    back: Seq<OperationView>,
)
    requires
        follows(s, c, t, d, field),
        forall|i: int| 0 <= i < ops.len() ==> (#[trigger] ops[i]).mutates(),
        forall|i: int| 0 <= i < back.len() ==> (#[trigger] back[i]).mutates(),
        all_increments(back) == all_increments(ops),
        all_increments(ops) ==> total(back) == opposite(total(ops)) && evenly_counted(
            s,
            c,
            t,
            d,
            field,
            ops,
        ),
        !all_increments(ops) ==> forall|x: OperationView| #[trigger]
            assigning(back).contains(x) <==> pure_ops(field).contains(x),
    ensures
        ({
            let before = pure_ops(field);
            let after = pure_ops(folded(t, d, folded(s, c, field, ops), back));
            &&& forall|x: OperationView| #[trigger] after.contains(x) <==> before.contains(x)
            &&& before.len() == 1 ==> after.len() > 0 && after[0] == before[0]
            &&& all_increments(ops) ==> after == before
        }),
{
    let mid = folded(s, c, field, ops);
    let last = folded(t, d, mid, back);
    let before = pure_ops(field);
    let after = pure_ops(last);
    if all_increments(ops) {
        lemma_folded_increments(s, c, field, ops);
        lemma_folded_increments(t, d, mid, back);
        let by = total(ops);
        lemma_opposite(by, 0);
        assert forall|i: int| 0 <= i < field.len() implies after[i] == before[i] by {
            let o = field[i];
            assert(beside(t, d, mid[i]) == beside(t, d, o));
            lemma_incremented_twice(o.op, by, opposite(by));
            if !has_seen(s, c, o) && has_seen(t, d, o) {
                lemma_unmoved(o.op, ops);
            }
        }
        assert(after =~= before);
    } else {
        lemma_folded_kept(s, c, field, ops);
        lemma_folded_kept(t, d, mid, back);
        let values = assigning(back);
        assert forall|x: OperationView| #[trigger] after.contains(x) <==> before.contains(x) by {
            assert(values.contains(x) <==> before.contains(x));
            if after.contains(x) {
                let i = choose|i: int| 0 <= i < after.len() && after[i] == x;
                let o = last[i];
                assert(last.contains(o));
                if mid.contains(o) && beside(t, d, o) {
                    let j = choose|j: int| 0 <= j < field.len() && field[j] == o;
                    assert(before[j] == x);
                }
            }
            if before.contains(x) {
                let o = OpView { seq: d.seq, actor: d.actor, op: x };
                assert(last.contains(o));
                let i = choose|i: int| 0 <= i < last.len() && last[i] == o;
                assert(after[i] == x);
            }
        }
        if before.len() == 1 {
            assert(before.contains(before[0]));
            assert(after.contains(before[0]));
            assert(after.contains(after[0]));
            assert(before.contains(after[0]));
        }
    }
}

/// What two changes do to a field that come one right after the other, each
/// alone, the second of them building on the first.
proof fn lemma_two_changes(
    m: OpSetView,
    c: ChangeView,
    undoable: bool,
    x: OpSetView,
    d: ChangeView,
    id: ObjectIDView,
    key: Seq<char>,
)
    requires
        m.delivered(),
        comes_alone(m, c, undoable),
        ({
            let one = m.receive(c, undoable).0;
            &&& x.store == one.store
            &&& x.queue == one.queue
            &&& x.clock == one.clock
            &&& x.states == one.states
        }),
        comes_alone(x, d, false),
        c.seq <= d.needs().get(c.actor),
        m.store.contains_key(id),
        !makes_anew(c.ops, id),
        !makes_anew(d.ops, id),
    ensures
        ({
            let s = m.states.extended(c);
            let t = x.states.extended(d);
            let field = held(m.store, id, key);
            let after = x.receive(d, false).0;
            &&& follows(s, c, t, d, field)
            &&& held(after.store, id, key) == folded(
                t,
                d,
                folded(s, c, field, on_field(m.store, c.ops, id, key)),
                on_field(m.store, d.ops, id, key),
            )
        }),
{
    let one = m.receive(c, undoable).0;
    lemma_comes_alone(m, c, undoable);
    lemma_same_queue(one, x);
    lemma_comes_alone(x, d, false);
    lemma_follows(m, c, x, d, id, key);
    lemma_fields_are_apart(m.store, m.states.extended(c), c, c.ops, id, key);
    lemma_fields_are_apart(x.store, x.states.extended(d), d, d.ops, id, key);
    let q = |o: OperationView| touches(m.store, o, id, key);
    let r = |o: OperationView| touches(x.store, o, id, key);
    assert(q =~= r);
}

/// What an undoable change that comes alone notes to take it back.
proof fn lemma_noted_alone(m: OpSetView, c: ChangeView, id: ObjectIDView, key: Seq<char>)
    requires
        m.delivered(),
        m.in_step(),
        comes_alone(m, c, true),
        m.store.contains_key(id),
        !makes_anew(c.ops, id),
    ensures
        ({
            let one = m.receive(c, true).0;
            let undo = one.undo_stack[one.undo_pos - 1];
            &&& one.undo_pos == m.undo_pos + 1
            &&& one.undo_pos == one.undo_stack.len()
            &&& !makes_anew(undo, id)
            &&& on_field(m.store, undo, id, key) == noted(
                m.states.extended(c),
                c,
                held(m.store, id, key),
                on_field(m.store, c.ops, id, key),
            )
        }),
{
    let one = m.receive(c, true).0;
    lemma_comes_alone(m, c, true);
    let s = m.states.extended(c);
    lemma_noted(m.store, s, c, c.ops, id, key);
    lemma_undo_makes_nothing(m.store, s, c, c.ops);
    assert(one.undo_stack[one.undo_pos - 1] == progress(m.store, s, c, c.ops).undo);
}

/// Undoing a change right after it was applied, by a change that builds on it,
/// brings each field back to the values that it held before: where it held one,
/// that one is shown again; where it held none, it holds none. What could be
/// undone before the change can be undone next.
///
/// This is said of fields on which the change has one operation, or only
/// increments, and of objects that it did not make itself; and of increments
/// that change no counter that the change had not seen but the undo has.
pub proof fn undo_takes_a_change_back(
    m: OpSetView,
    c: ChangeView,
    actor: Seq<char>,
    seq: u32,
    message: Option<Seq<char>>,
    deps: ClockView,
    id: ObjectIDView,
    key: Seq<char>,
)
    requires
        m.delivered(),
        m.in_step(),
        comes_alone(m, c, true),
        undone_alone(m.receive(c, true).0, actor, seq, message, deps),
        c.seq <= deps.with(actor, (seq - 1) as u32).get(c.actor),
        m.store.contains_key(id),
        !makes_anew(c.ops, id),
        ({
            let one = m.receive(c, true).0;
            let d = ChangeView {
                actor,
                seq,
                message,
                deps,
                ops: one.undo_stack[one.undo_pos - 1],
            };
            let ops = on_field(m.store, c.ops, id, key);
            ||| ops.len() == 1 && !(ops[0] is Increment)
            ||| all_increments(ops) && evenly_counted(
                m.states.extended(c),
                c,
                one.states.extended(d),
                d,
                held(m.store, id, key),
                ops,
            )
        }),
    ensures
        ({
            let undone = m.receive(c, true).0.undo(actor, seq, message, deps).0;
            let before = pure_ops(held(m.store, id, key));
            let after = pure_ops(held(undone.store, id, key));
            &&& forall|x: OperationView| #[trigger] after.contains(x) <==> before.contains(x)
            &&& before.len() == 1 ==> after.len() > 0 && after[0] == before[0]
            &&& before.len() == 0 ==> after.len() == 0
            &&& all_increments(on_field(m.store, c.ops, id, key)) ==> after == before
            &&& undone.undo_pos == m.undo_pos
        }),
{
    let one = m.receive(c, true).0;
    let x = one.undo_start();
    let d = ChangeView { actor, seq, message, deps, ops: one.undo_stack[one.undo_pos - 1] };
    let ops = on_field(m.store, c.ops, id, key);
    let field = held(m.store, id, key);
    lemma_noted_alone(m, c, id, key);
    lemma_undo_is_alone(m, c, actor, seq, message, deps);
    lemma_two_changes(m, c, true, x, d, id, key);
    lemma_all_touch(m.store, c.ops, id, key);
    lemma_all_touch(m.store, d.ops, id, key);
    assert(all_assign(field)) by {
        assert(m.store[id].wf());
    }
    lemma_taken_back(m.states.extended(c), c, x.states.extended(d), d, field, ops);
}

/// A field after operations of a change and what was noted to take them back.
proof fn lemma_taken_back(
    s: StatesView,
    c: ChangeView,
    t: StatesView,
    d: ChangeView,
    field: Seq<OpView>,
    ops: Seq<OperationView>,
)
    requires
        follows(s, c, t, d, field),
        all_assign(field),
        forall|i: int| 0 <= i < ops.len() ==> (#[trigger] ops[i]).mutates(),
        ({
            let back = noted(s, c, field, ops);
            forall|i: int| 0 <= i < back.len() ==> (#[trigger] back[i]).mutates()
        }),
        (ops.len() == 1 && !(ops[0] is Increment)) || (all_increments(ops) && evenly_counted(
            s,
            c,
            t,
            d,
            field,
            ops,
        )),
    ensures
        ({
            let before = pure_ops(field);
            let after = pure_ops(
                folded(t, d, folded(s, c, field, ops), noted(s, c, field, ops)),
            );
            &&& forall|x: OperationView| #[trigger] after.contains(x) <==> before.contains(x)
            &&& before.len() == 1 ==> after.len() > 0 && after[0] == before[0]
            &&& before.len() == 0 ==> after.len() == 0
            &&& all_increments(ops) ==> after == before
        }),
{
    let back = noted(s, c, field, ops);
    lemma_values_noted(s, c, field, ops);
    lemma_returned(s, c, t, d, field, ops, back);
    let before = pure_ops(field);
    let after = pure_ops(folded(t, d, folded(s, c, field, ops), back));
    if before.len() == 0 && after.len() > 0 {
        assert(after.contains(after[0]));
    }
}

/// A change that comes alone leaves the fields of an object that it does not make
/// where they are.
proof fn lemma_same_fields(
    m: OpSetView,
    c: ChangeView,
    undoable: bool,
    ops: Seq<OperationView>,
    id: ObjectIDView,
    key: Seq<char>,
)
    requires
        m.delivered(),
        comes_alone(m, c, undoable),
        m.store.contains_key(id),
        !makes_anew(c.ops, id),
    ensures
        ({
            let one = m.receive(c, undoable).0;
            &&& one.delivered()
            &&& m.complete() ==> one.complete()
            &&& one.store.contains_key(id)
            &&& on_field(one.store, ops, id, key) == on_field(m.store, ops, id, key)
        }),
{
    let one = m.receive(c, undoable).0;
    lemma_comes_alone(m, c, undoable);
    lemma_fields_are_apart(m.store, m.states.extended(c), c, c.ops, id, key);
    let q = |o: OperationView| touches(m.store, o, id, key);
    let r = |o: OperationView| touches(one.store, o, id, key);
    assert(q =~= r);
}

/// Undoing a change right after it was applied, by a change that has seen all
/// that was applied, gives a field on which the change has one operation exactly
/// the values back that it held before, in the same or the reverse order.
pub proof fn undo_that_has_seen_all_gives_back_all(
    m: OpSetView,
    c: ChangeView,
    actor: Seq<char>,
    seq: u32,
    message: Option<Seq<char>>,
    deps: ClockView,
    id: ObjectIDView,
    key: Seq<char>,
)
    requires
        m.delivered(),
        m.complete(),
        m.in_step(),
        comes_alone(m, c, true),
        undone_alone(m.receive(c, true).0, actor, seq, message, deps),
        m.receive(c, true).0.clock.within(deps.with(actor, (seq - 1) as u32)),
        m.store.contains_key(id),
        !makes_anew(c.ops, id),
        on_field(m.store, c.ops, id, key).len() == 1,
        !(on_field(m.store, c.ops, id, key)[0] is Increment),
    ensures
        ({
            let undone = m.receive(c, true).0.undo(actor, seq, message, deps).0;
            let before = pure_ops(held(m.store, id, key));
            let after = pure_ops(held(undone.store, id, key));
            &&& after == before.reverse()
            &&& before.len() <= 1 ==> after == before
        }),
{
    let one = m.receive(c, true).0;
    let s = m.states.extended(c);
    let field = held(m.store, id, key);
    let ops = on_field(m.store, c.ops, id, key);
    let undo = one.undo_stack[one.undo_pos - 1];
    let before = pure_ops(field);
    assert(!all_increments(on_field(one.store, undo, id, key)) && assigning(
        on_field(one.store, undo, id, key),
    ) == before && !makes_anew(undo, id) && one.delivered() && one.complete()
        && one.store.contains_key(id)) by {
        lemma_noted_alone(m, c, id, key);
        lemma_same_fields(m, c, true, undo, id, key);
        assert(all_assign(field)) by {
            assert(m.store[id].wf());
        }
        assert(!all_increments(ops));
        lemma_values_noted(s, c, field, ops);
    }
    undo_leaves_what_was_noted(one, actor, seq, message, deps, id, key);
    if before.len() <= 1 {
        assert(before.reverse() =~= before);
    }
}

/// The change that an undo is comes alone, if no other is applied with it.
proof fn lemma_undo_is_alone(
    m: OpSetView,
    c: ChangeView,
    actor: Seq<char>,
    seq: u32,
    message: Option<Seq<char>>,
    deps: ClockView,
)
    requires
        m.delivered(),
        m.in_step(),
        comes_alone(m, c, true),
        undone_alone(m.receive(c, true).0, actor, seq, message, deps),
    ensures
        ({
            let one = m.receive(c, true).0;
            let d = ChangeView { actor, seq, message, deps, ops: one.undo_stack[one.undo_pos - 1] };
            let undone = one.undo(actor, seq, message, deps).0;
            &&& comes_alone(one.undo_start(), d, false)
            &&& undone == one.undo_start().receive(d, false).0
            &&& undone.undo_pos == m.undo_pos
        }),
{
    let one = m.receive(c, true).0;
    let x = one.undo_start();
    let d = ChangeView { actor, seq, message, deps, ops: one.undo_stack[one.undo_pos - 1] };
    lemma_comes_alone(m, c, true);
    lemma_same_queue(one, x);
    lemma_comes_alone(x, d, false);
}

/// What is noted to take increments, or one other operation, back.
proof fn lemma_values_noted(
    s: StatesView,
    c: ChangeView,
    field: Seq<OpView>,
    ops: Seq<OperationView>,
)
    requires
        all_assign(field),
        all_increments(ops) || ops.len() == 1,
    ensures
        ({
            let back = noted(s, c, field, ops);
            &&& all_increments(back) == all_increments(ops)
            &&& all_increments(ops) ==> total(back) == opposite(total(ops))
            &&& !all_increments(ops) ==> assigning(back) == pure_ops(field)
        }),
{
    if all_increments(ops) {
        lemma_noted_increments(s, c, field, ops);
    } else {
        let none = Seq::<OperationView>::empty();
        assert(ops.drop_last() =~= none);
        assert(folded(s, c, field, none) == field);
        assert(noted(s, c, field, none) =~= none);
        assert(noted(s, c, field, ops) =~= undoing(field, ops[0]));
        lemma_values_of_undoing(field, ops[0]);
    }
}

/// The values among the operations that take an operation back are those that
/// the field held.
proof fn lemma_values_of_undoing(field: Seq<OpView>, op: OperationView)
    requires
        all_assign(field),
        !(op is Increment),
    ensures
        !all_increments(undoing(field, op)),
        assigning(undoing(field, op)) == pure_ops(field),
{
    let back = undoing(field, op);
    let q = |o: OperationView| o.assigns();
    if field.len() == 0 {
        assert(!(back[0] is Increment));
        assert forall|i: int| 0 <= i < back.len() implies !q(#[trigger] back[i]) by {}
        back.lemma_all_neg_filter_empty(q);
        assert(pure_ops(field) =~= back.filter(q));
    } else {
        assert forall|i: int| 0 <= i < back.len() implies q(#[trigger] back[i]) by {
            assert(field[i].op.assigns());
        }
        assert(back[0].assigns());
        lemma_filter_all(back, q);
    }
}

/// What is noted to take increments back are the opposite increments.
proof fn lemma_noted_increments(
    s: StatesView,
    c: ChangeView,
    field: Seq<OpView>,
    ops: Seq<OperationView>,
)
    requires
        all_increments(ops),
    ensures
        all_increments(noted(s, c, field, ops)),
        total(noted(s, c, field, ops)) == opposite(total(ops)),
    decreases ops.len(),
{
    if ops.len() > 0 {
        let rest = ops.drop_last();
        assert forall|i: int| 0 <= i < rest.len() implies (#[trigger] rest[i]) is Increment by {
            assert(ops[i] is Increment);
        }
        assert(ops[ops.len() - 1] is Increment);
        lemma_noted_increments(s, c, field, rest);
        let before = noted(s, c, field, rest);
        let back = noted(s, c, field, ops);
        let one = undoing(folded(s, c, field, rest), ops.last());
        assert(back == before + one);
        assert(back.drop_last() =~= before);
        assert(back.last() == one[0]);
        lemma_opposite(total(rest), ops.last()->Increment_value);
        assert forall|i: int| 0 <= i < back.len() implies (#[trigger] back[i]) is Increment by {
            if i < before.len() {
                assert(before[i] is Increment);
            }
        }
    }
}

/// Nothing that is noted to take a change back makes an object.
proof fn lemma_undo_makes_nothing(
    store: StoreView,
    s: StatesView,
    c: ChangeView,
    ops: Seq<OperationView>,
)
    requires
        store_wf(store),
        at_home(store),
    ensures
        forall|i: int|
            0 <= i < progress(store, s, c, ops).undo.len() ==> (#[trigger] progress(
                store,
                s,
                c,
                ops,
            ).undo[i]).mutates(),
    decreases ops.len(),
{
    if ops.len() > 0 {
        let rest = ops.drop_last();
        lemma_undo_makes_nothing(store, s, c, rest);
        lemma_progress_at_home(store, s, c, rest);
        let p = progress(store, s, c, rest);
        let op = OpView { seq: c.seq, actor: c.actor, op: ops.last() };
        if p.error is None {
            if let Ok((_, _, undo)) = applied_op(p.store, s, op) {
                let id = op.op.object();
                let key = op.op.field();
                assert forall|i: int| 0 <= i < undo.len() implies (#[trigger] undo[i]).mutates() by {
                    let field = held(p.store, id, key);
                    if op.op.mutates() && !(op.op is Increment) && field.len() > 0 {
                        assert(undo[i] == field[i].op);
                        assert(touches(p.store, held(p.store, id, key)[i].op, id, key));
                    }
                }
            }
        }
    }
}

/// What brings an operation on a field back is on the same field.
proof fn lemma_redoing_one_stays(
    store: StoreView,
    op: OperationView,
    id: ObjectIDView,
    key: Seq<char>,
)
    requires
        at_home(store),
        store.contains_key(id),
    ensures
        on_field(store, redoing_one(store, op), id, key) == if touches(store, op, id, key) {
            redoing_one(store, op)
        } else {
            Seq::empty()
        },
        forall|i: int|
            0 <= i < redoing_one(store, op).len() ==> (#[trigger] redoing_one(
                store,
                op,
            )[i]).mutates(),
{
    let redo = redoing_one(store, op);
    let q = |o: OperationView| touches(store, o, id, key);
    assert forall|i: int| 0 <= i < redo.len() implies q(#[trigger] redo[i]) == touches(
        store,
        op,
        id,
        key,
    ) && redo[i].mutates() by {
        if !(op is Increment) {
            let field = held(store, op.object(), op.field());
            if field.len() > 0 {
                assert(redo[i] == field[i].op);
                assert(touches(
                    store,
                    held(store, op.object(), op.field())[i].op,
                    op.object(),
                    op.field(),
                ));
            }
        }
    }
    if touches(store, op, id, key) {
        lemma_filter_all(redo, q);
    } else {
        redo.lemma_all_neg_filter_empty(q);
    }
}

/// Of what brings a change back, that which is on a field is what brings the
/// operations on that field back.
proof fn lemma_redoing_stays(
    store: StoreView,
    ops: Seq<OperationView>,
    id: ObjectIDView,
    key: Seq<char>,
)
    requires
        at_home(store),
        store.contains_key(id),
    ensures
        on_field(store, redoing(store, ops), id, key) == redoing(
            store,
            on_field(store, ops, id, key),
        ),
        !makes_anew(redoing(store, ops), id),
        forall|i: int|
            0 <= i < redoing(store, ops).len() ==> (#[trigger] redoing(store, ops)[i]).mutates(),
    decreases ops.len(),
{
    let q = |o: OperationView| touches(store, o, id, key);
    if ops.len() == 0 {
        reveal(Seq::filter);
    } else {
        let rest = ops.drop_last();
        let last = ops.last();
        lemma_redoing_stays(store, rest, id, key);
        lemma_redoing_one_stays(store, last, id, key);
        let before = redoing(store, rest);
        let one = redoing_one(store, last);
        Seq::filter_distributes_over_add(before, one, q);
        assert(ops =~= rest.push(last));
        rest.lemma_filter_push(last, q);
        if q(last) {
            assert(rest.filter(q).push(last).drop_last() =~= rest.filter(q));
        } else {
            assert(before.filter(q) + Seq::<OperationView>::empty() =~= before.filter(q));
        }
        let all = redoing(store, ops);
        assert forall|i: int| 0 <= i < all.len() implies (#[trigger] all[i]).mutates() by {
            if i < before.len() {
                assert(all[i] == before[i]);
            } else {
                assert(all[i] == one[i - before.len()]);
            }
        }
    }
}

/// The values among what brings operations on a field back are those that the
/// field holds, unless all are increments.
proof fn lemma_values_of_redoing(
    store: StoreView,
    ops: Seq<OperationView>,
    id: ObjectIDView,
    key: Seq<char>,
)
    requires
        store_wf(store),
        store.contains_key(id),
        forall|i: int| 0 <= i < ops.len() ==> touches(store, #[trigger] ops[i], id, key),
        ops.len() > 0 ==> field_of(store, id, key) is Some,
    ensures
        all_increments(redoing(store, ops)) == all_increments(ops),
        all_increments(ops) ==> total(redoing(store, ops)) == opposite(total(ops)),
        forall|x: OperationView| #[trigger]
            assigning(redoing(store, ops)).contains(x) <==> !all_increments(ops) && pure_ops(
                held(store, id, key),
            ).contains(x),
    decreases ops.len(),
{
    let q = |o: OperationView| o.assigns();
    let field = held(store, id, key);
    if ops.len() == 0 {
        reveal(Seq::filter);
    } else {
        let rest = ops.drop_last();
        let last = ops.last();
        assert(touches(store, ops[ops.len() - 1], id, key));
        assert forall|i: int| 0 <= i < rest.len() implies touches(
            store,
            #[trigger] rest[i],
            id,
            key,
        ) by {
            assert(touches(store, ops[i], id, key));
        }
        lemma_values_of_redoing(store, rest, id, key);
        let before = redoing(store, rest);
        let one = redoing_one(store, last);
        let all = before + one;
        assert(all == redoing(store, ops));
        Seq::filter_distributes_over_add(before, one, q);
        lemma_split_increments(ops);
        assert(all_increments(all) <==> all_increments(before) && all_increments(one)) by {
            if all_increments(all) {
                assert forall|i: int| 0 <= i < before.len() implies (
                #[trigger] before[i]) is Increment by {
                    assert(all[i] is Increment);
                }
                assert forall|i: int| 0 <= i < one.len() implies (#[trigger] one[i]) is Increment by {
                    assert(all[before.len() + i] is Increment);
                }
            }
        }
        if last is Increment {
            assert(all.drop_last() =~= before);
            assert(all.last() == one[0]);
            lemma_opposite(total(rest), last->Increment_value);
            assert forall|i: int| 0 <= i < one.len() implies !q(#[trigger] one[i]) by {}
            one.lemma_all_neg_filter_empty(q);
            assert(assigning(all) =~= assigning(before));
            assert forall|x: OperationView| #[trigger] assigning(all).contains(x) <==> !all_increments(
                ops,
            ) && pure_ops(field).contains(x) by {
                assert(assigning(before).contains(x) <==> !all_increments(rest) && pure_ops(
                    field,
                ).contains(x));
            }
        } else {
            assert(field_of(store, id, last.field()) == field_of(store, id, key));
            assert(one =~= undoing(field, last));
            assert(all_assign(field)) by {
                assert(store[id].wf());
            }
            lemma_values_of_undoing(field, last);
            assert(one.filter(q) == pure_ops(field));
            assert forall|x: OperationView| #[trigger] all.filter(q).contains(x) <==> pure_ops(
                field,
            ).contains(x) by {
                let a = before.filter(q);
                let b = pure_ops(field);
                let both = all.filter(q);
                assert(both == a + b);
                if b.contains(x) {
                    let i = choose|i: int| 0 <= i < b.len() && b[i] == x;
                    assert(both[a.len() + i] == x);
                }
                if both.contains(x) {
                    let i = choose|i: int| 0 <= i < both.len() && both[i] == x;
                    if i < a.len() {
                        assert(a[i] == x);
                        assert(assigning(before).contains(x));
                    } else {
                        assert(b[i - a.len()] == x);
                    }
                }
            }
        }
    }
}

/// Redoing a change right after it was undone, by a change that builds on the
/// undo, brings each field back to the values that it held before the undo: where
/// it held one, that one is shown again; where it held none, it holds none.
///
/// This is said of the objects that the undo does not make, and of fields for
/// which operations came before the undo; and of increments that change no
/// counter that the undo had not seen but the redo has.
pub proof fn redo_brings_a_change_back(
    m: OpSetView,
    actor: Seq<char>,
    seq: u32,
    message: Option<Seq<char>>,
    deps: ClockView,
    redo_actor: Seq<char>,
    redo_seq: u32,
    redo_message: Option<Seq<char>>,
    redo_deps: ClockView,
    id: ObjectIDView,
    key: Seq<char>,
)
    requires
        m.delivered(),
        undone_alone(m, actor, seq, message, deps),
        redone_alone(
            m.undo(actor, seq, message, deps).0,
            redo_actor,
            redo_seq,
            redo_message,
            redo_deps,
        ),
        seq <= redo_deps.with(redo_actor, (redo_seq - 1) as u32).get(actor),
        m.store.contains_key(id),
        !makes_anew(m.undo_stack[m.undo_pos - 1], id),
        ({
            let undone = m.undo(actor, seq, message, deps).0;
            let d = ChangeView { actor, seq, message, deps, ops: m.undo_stack[m.undo_pos - 1] };
            let e = ChangeView {
                actor: redo_actor,
                seq: redo_seq,
                message: redo_message,
                deps: redo_deps,
                ops: undone.redo_stack.last(),
            };
            let ops = on_field(m.store, d.ops, id, key);
            &&& ops.len() > 0 ==> field_of(m.store, id, key) is Some
            &&& all_increments(ops) ==> evenly_counted(
                m.states.extended(d),
                d,
                undone.states.extended(e),
                e,
                held(m.store, id, key),
                ops,
            )
        }),
    ensures
        ({
            let redone = m.undo(actor, seq, message, deps).0.redo(
                redo_actor,
                redo_seq,
                redo_message,
                redo_deps,
            ).0;
            let before = pure_ops(held(m.store, id, key));
            let after = pure_ops(held(redone.store, id, key));
            &&& forall|x: OperationView| #[trigger] after.contains(x) <==> before.contains(x)
            &&& before.len() == 1 ==> after.len() > 0 && after[0] == before[0]
            &&& before.len() == 0 ==> after.len() == 0
            &&& all_increments(on_field(m.store, m.undo_stack[m.undo_pos - 1], id, key)) ==> after
                == before
        }),
{
    let x = m.undo_start();
    let d = ChangeView { actor, seq, message, deps, ops: m.undo_stack[m.undo_pos - 1] };
    let two = m.undo(actor, seq, message, deps).0;
    let y = two.redo_start();
    let e = ChangeView {
        actor: redo_actor,
        seq: redo_seq,
        message: redo_message,
        deps: redo_deps,
        ops: two.redo_stack.last(),
    };
    let ops = on_field(m.store, d.ops, id, key);
    lemma_redo_is_alone(
        m,
        actor,
        seq,
        message,
        deps,
        redo_actor,
        redo_seq,
        redo_message,
        redo_deps,
    );
    lemma_redoing_stays(m.store, d.ops, id, key);
    lemma_two_changes(x, d, false, y, e, id, key);
    lemma_all_touch(m.store, d.ops, id, key);
    lemma_all_touch(m.store, e.ops, id, key);
    lemma_brought_back(
        m.store,
        m.states.extended(d),
        d,
        two.states.extended(e),
        e,
        id,
        key,
        ops,
    );
}

/// The changes that an undo and a redo are come alone, if no others are applied
/// with them.
proof fn lemma_redo_is_alone(
    m: OpSetView,
    actor: Seq<char>,
    seq: u32,
    message: Option<Seq<char>>,
    deps: ClockView,
    redo_actor: Seq<char>,
    redo_seq: u32,
    redo_message: Option<Seq<char>>,
    redo_deps: ClockView,
)
    requires
        m.delivered(),
        undone_alone(m, actor, seq, message, deps),
        redone_alone(
            m.undo(actor, seq, message, deps).0,
            redo_actor,
            redo_seq,
            redo_message,
            redo_deps,
        ),
    ensures
        ({
            let two = m.undo(actor, seq, message, deps).0;
            let d = ChangeView { actor, seq, message, deps, ops: m.undo_stack[m.undo_pos - 1] };
            let e = ChangeView {
                actor: redo_actor,
                seq: redo_seq,
                message: redo_message,
                deps: redo_deps,
                ops: two.redo_stack.last(),
            };
            &&& m.undo_start().delivered()
            &&& comes_alone(m.undo_start(), d, false)
            &&& two == m.undo_start().receive(d, false).0
            &&& two.redo_stack.last() == redoing(m.store, d.ops)
            &&& comes_alone(two.redo_start(), e, false)
            &&& two.redo(redo_actor, redo_seq, redo_message, redo_deps).0
                == two.redo_start().receive(e, false).0
        }),
{
    let x = m.undo_start();
    let d = ChangeView { actor, seq, message, deps, ops: m.undo_stack[m.undo_pos - 1] };
    lemma_same_queue(m, x);
    lemma_comes_alone(x, d, false);
    let two = x.receive(d, false).0;
    lemma_same_queue(two, two.redo_start());
}

/// A field after operations of an undo and what was noted to bring back what they
/// take away.
proof fn lemma_brought_back(
    store: StoreView,
    s: StatesView,
    c: ChangeView,
    t: StatesView,
    d: ChangeView,
    id: ObjectIDView,
    key: Seq<char>,
    ops: Seq<OperationView>,
)
    requires
        store_wf(store),
        store.contains_key(id),
        follows(s, c, t, d, held(store, id, key)),
        forall|i: int| 0 <= i < ops.len() ==> touches(store, #[trigger] ops[i], id, key),
        ({
            let back = redoing(store, ops);
            forall|i: int| 0 <= i < back.len() ==> (#[trigger] back[i]).mutates()
        }),
        ops.len() > 0 ==> field_of(store, id, key) is Some,
        all_increments(ops) ==> evenly_counted(s, c, t, d, held(store, id, key), ops),
    ensures
        ({
            let field = held(store, id, key);
            let before = pure_ops(field);
            let after = pure_ops(folded(t, d, folded(s, c, field, ops), redoing(store, ops)));
            &&& forall|x: OperationView| #[trigger] after.contains(x) <==> before.contains(x)
            &&& before.len() == 1 ==> after.len() > 0 && after[0] == before[0]
            &&& before.len() == 0 ==> after.len() == 0
            &&& all_increments(ops) ==> after == before
        }),
{
    let field = held(store, id, key);
    let back = redoing(store, ops);
    lemma_values_of_redoing(store, ops, id, key);
    lemma_returned(s, c, t, d, field, ops, back);
    let before = pure_ops(field);
    let after = pure_ops(folded(t, d, folded(s, c, field, ops), back));
    if before.len() == 0 && after.len() > 0 {
        assert(after.contains(after[0]));
    }
}

/// Where nothing waits, a change that is ready and new comes alone.
pub proof fn change_comes_alone_where_nothing_waits(m: OpSetView, c: ChangeView, undoable: bool)
    requires
        m.delivered(),
        m.queue.len() == 0,
        c.seq >= 1,
        m.ready(c),
        m.states.applied(c.actor, c.seq) is None,
        m.receive(c, undoable).1 is Ok,
    ensures
        comes_alone(m, c, undoable),
        m.receive(c, undoable).0.queue.len() == 0,
{
    assert(m.next_ready() is None);
    lemma_last_is_next(m, c, undoable);
    let q = m.queued(c, undoable);
    assert(q.queue[0] == (c, undoable));
    let next = m.apply_ready(c, undoable).0;
    assert(next.queue == m.queue);
    assert(next.next_ready() is None);
    assert(next.run().0 == next);
}

/// The next change of an actor, with the same dependencies, has seen no more than
/// the change before it has, and that change.
proof fn lemma_same_sight(m: OpSetView, c: ChangeView, d: ChangeView, o: OpView)
    requires
        m.delivered(),
        c.seq >= 1,
        m.ready(c),
        c.seq == m.states.log(c.actor).len() + 1,
        d.actor == c.actor,
        d.seq == c.seq + 1,
        d.deps == c.deps,
        m.states.knows(o),
    ensures
        has_seen(m.states.extended(c).extended(d), d, o) ==> has_seen(m.states.extended(c), c, o),
{
    let s = m.states.extended(c);
    let t = s.extended(d);
    lemma_extended_keeps(m.states, c);
    lemma_new_change(m, c);
    lemma_extended_keeps(s, d);
    assert(t.applied(d.actor, d.seq) is Some);
    assert(s.applied(c.actor, c.seq) is Some);
    assert(c.needs().get(c.actor) <= m.states.log(c.actor).len());
    if has_seen(t, d, o) {
        let a = o.actor;
        let n = s.all_deps(d.needs()).get(a);
        lemma_all_deps(s, d.needs(), a);
        lemma_all_deps(m.states, c.needs(), a);
        assert(s.reaches(d.needs(), a, n));
        assert(m.states.applied(a, o.seq) is Some);
        if n <= d.needs().get(a) {
            assert(o.seq <= c.needs().get(a));
        } else {
            let b = choose|b: Seq<char>| n <= #[trigger] s.deps_of(b, d.needs().get(b)).get(a);
            if b == c.actor {
                assert(d.needs().get(b) == c.seq);
            } else {
                let k = c.needs().get(b);
                assert(d.needs().get(b) == k);
                assert(s.applied(b, k) is Some);
                assert(m.states.applied(b, k) is Some);
                assert(s.deps_of(b, k) == m.states.deps_of(b, k));
                assert(n <= m.states.deps_of(b, c.needs().get(b)).get(a));
                assert(m.states.reaches(c.needs(), a, n));
            }
        }
    }
}

/// Increments in the next change of an actor, with the same dependencies, change
/// the same counters.
proof fn lemma_evenly_counted(
    m: OpSetView,
    c: ChangeView,
    d: ChangeView,
    id: ObjectIDView,
    key: Seq<char>,
    ops: Seq<OperationView>,
)
    requires
        m.delivered(),
        c.seq >= 1,
        m.ready(c),
        c.seq == m.states.log(c.actor).len() + 1,
        d.actor == c.actor,
        d.seq == c.seq + 1,
        d.deps == c.deps,
        m.store.contains_key(id),
    ensures
        evenly_counted(
            m.states.extended(c),
            c,
            m.states.extended(c).extended(d),
            d,
            held(m.store, id, key),
            ops,
        ),
{
    let field = held(m.store, id, key);
    assert(concurrent_object(m.states, m.store[id]));
    assert(concurrent_field(m.states, field));
    assert forall|i: int|
        0 <= i < field.len() && has_seen(
            m.states.extended(c).extended(d),
            d,
            #[trigger] field[i],
        ) implies has_seen(m.states.extended(c), c, field[i]) by {
        assert(m.states.knows(field[i]));
        lemma_same_sight(m, c, d, field[i]);
    }
}

/// An actor that undoes its change right after it was applied, by its next change
/// with the same dependencies, brings each field back to the values that it held
/// before: where it held one, that one is shown again; where it held none, it
/// holds none. What could be undone before the change can be undone next.
///
/// This is said where nothing waits, of fields on which the change has one
/// operation, or only increments, and of objects that it did not make itself.
pub proof fn next_change_of_an_actor_can_undo_the_last(
    m: OpSetView,
    c: ChangeView,
    message: Option<Seq<char>>,
    id: ObjectIDView,
    key: Seq<char>,
)
    requires
        m.delivered(),
        m.in_step(),
        m.queue.len() == 0,
        1 <= c.seq < u32::MAX,
        m.ready(c),
        m.states.applied(c.actor, c.seq) is None,
        m.receive(c, true).1 is Ok,
        m.receive(c, true).0.undo(c.actor, (c.seq + 1) as u32, message, c.deps).1 is Ok,
        m.store.contains_key(id),
        !makes_anew(c.ops, id),
        on_field(m.store, c.ops, id, key).len() == 1 || all_increments(
            on_field(m.store, c.ops, id, key),
        ),
    ensures
        ({
            let one = m.receive(c, true).0;
            let undone = one.undo(c.actor, (c.seq + 1) as u32, message, c.deps).0;
            let before = pure_ops(held(m.store, id, key));
            let after = pure_ops(held(undone.store, id, key));
            &&& forall|x: OperationView| #[trigger] after.contains(x) <==> before.contains(x)
            &&& before.len() == 1 ==> after.len() > 0 && after[0] == before[0]
            &&& before.len() == 0 ==> after.len() == 0
            &&& all_increments(on_field(m.store, c.ops, id, key)) ==> after == before
            &&& undone.undo_pos == m.undo_pos
        }),
{
    let one = m.receive(c, true).0;
    let seq = (c.seq + 1) as u32;
    change_comes_alone_where_nothing_waits(m, c, true);
    lemma_noted_alone(m, c, id, key);
    let d = ChangeView {
        actor: c.actor,
        seq,
        message,
        deps: c.deps,
        ops: one.undo_stack[one.undo_pos - 1],
    };
    let ops = on_field(m.store, c.ops, id, key);
    lemma_next_is_alone(m, c, true, one.undo_start(), d);
    lemma_evenly_counted(m, c, d, id, key, ops);
    if ops.len() == 1 && ops[0] is Increment {
        assert(all_increments(ops));
    }
    undo_takes_a_change_back(m, c, c.actor, seq, message, c.deps, id, key);
}

/// Where nothing waits, the next change of an actor, with the same dependencies,
/// comes alone.
proof fn lemma_next_is_alone(
    m: OpSetView,
    c: ChangeView,
    undoable: bool,
    x: OpSetView,
    d: ChangeView,
)
    requires
        m.delivered(),
        m.queue.len() == 0,
        comes_alone(m, c, undoable),
        m.receive(c, undoable).0.queue.len() == 0,
        ({
            let one = m.receive(c, undoable).0;
            &&& x.store == one.store
            &&& x.queue == one.queue
            &&& x.clock == one.clock
            &&& x.states == one.states
        }),
        d.actor == c.actor,
        d.seq == c.seq + 1,
        d.deps == c.deps,
        x.receive(d, false).1 is Ok,
    ensures
        comes_alone(x, d, false),
        c.seq == m.states.log(c.actor).len() + 1,
        m.ready(c),
        x.states == m.states.extended(c),
        c.seq <= d.needs().get(c.actor),
        x.next_ready() is None,
        m.receive(c, undoable).0.next_ready() is None,
{
    let one = m.receive(c, undoable).0;
    lemma_comes_alone(m, c, undoable);
    lemma_same_queue(one, x);
    lemma_extended_keeps(m.states, c);
    assert(x.ready(d)) by {
        assert forall|a: Seq<char>| #[trigger] d.needs().get(a) <= x.clock.get(a) by {
            assert(c.needs().get(a) <= m.clock.get(a));
        }
    }
    assert(x.states.log(d.actor).len() == c.seq);
    assert(x.states.applied(d.actor, d.seq) is None);
    change_comes_alone_where_nothing_waits(x, d, false);
}

/// An actor that redoes a change right after it has undone it, by its next change
/// with the same dependencies, brings each field back to the values that it held
/// before the undo: where it held one, that one is shown again; where it held
/// none, it holds none.
///
/// This is said where nothing waits, of the objects that the undo does not make,
/// and of fields for which operations came before the undo.
pub proof fn next_change_of_an_actor_can_redo_the_undone(
    m: OpSetView,
    actor: Seq<char>,
    seq: u32,
    message: Option<Seq<char>>,
    deps: ClockView,
    redo_message: Option<Seq<char>>,
    id: ObjectIDView,
    key: Seq<char>,
)
    requires
        m.delivered(),
        m.queue.len() == 0,
        1 <= m.undo_pos <= m.undo_stack.len(),
        1 <= seq < u32::MAX,
        m.ready(
            (ChangeView { actor, seq, message, deps, ops: m.undo_stack[m.undo_pos - 1] }),
        ),
        m.states.applied(actor, seq) is None,
        m.undo(actor, seq, message, deps).1 is Ok,
        m.undo(actor, seq, message, deps).0.redo(
            actor,
            (seq + 1) as u32,
            redo_message,
            deps,
        ).1 is Ok,
        m.store.contains_key(id),
        !makes_anew(m.undo_stack[m.undo_pos - 1], id),
        on_field(m.store, m.undo_stack[m.undo_pos - 1], id, key).len() > 0 ==> field_of(
            m.store,
            id,
            key,
        ) is Some,
    ensures
        ({
            let undone = m.undo(actor, seq, message, deps).0;
            let redone = undone.redo(actor, (seq + 1) as u32, redo_message, deps).0;
            let before = pure_ops(held(m.store, id, key));
            let after = pure_ops(held(redone.store, id, key));
            &&& forall|x: OperationView| #[trigger] after.contains(x) <==> before.contains(x)
            &&& before.len() == 1 ==> after.len() > 0 && after[0] == before[0]
            &&& before.len() == 0 ==> after.len() == 0
            &&& redone.undo_pos == m.undo_pos
        }),
{
    let x = m.undo_start();
    let d = ChangeView { actor, seq, message, deps, ops: m.undo_stack[m.undo_pos - 1] };
    let two = m.undo(actor, seq, message, deps).0;
    let e = ChangeView {
        actor,
        seq: (seq + 1) as u32,
        message: redo_message,
        deps,
        ops: two.redo_stack.last(),
    };
    lemma_same_queue(m, x);
    assert(x.ready(d));
    change_comes_alone_where_nothing_waits(x, d, false);
    lemma_comes_alone(x, d, false);
    lemma_next_is_alone(x, d, false, two.redo_start(), e);
    lemma_comes_alone(two.redo_start(), e, false);
    lemma_evenly_counted(x, d, e, id, key, on_field(m.store, d.ops, id, key));
    redo_brings_a_change_back(
        m,
        actor,
        seq,
        message,
        deps,
        actor,
        (seq + 1) as u32,
        redo_message,
        deps,
        id,
        key,
    );
}

/// A run that notes nothing leaves the undo stack and the redo stack alone.
proof fn lemma_run_keeps_stacks(m: OpSetView)
    requires
        m.notes_nothing(),
    ensures
        ({
            let after = m.run().0;
            &&& after.undo_pos == m.undo_pos
            &&& after.undo_stack == m.undo_stack
            &&& after.redo_stack == m.redo_stack
        }),
    decreases m.queue.len(),
{
    if let Some(i) = m.next_ready() {
        assert(m.first_ready(i));
        let (c, undoable) = m.queue[i];
        let (next, r) = m.without(i).apply_ready(c, undoable);
        if r is Ok {
            lemma_run_keeps_stacks(next);
        }
    }
}

/// Where neither the change that comes in nor one that waits is to be undoable,
/// the undo stack and the redo stack stay as they are.
pub proof fn changes_that_are_not_undoable_are_not_noted(m: OpSetView, c: ChangeView)
    requires
        !m.waits_undoable(),
    ensures
        ({
            let after = m.receive(c, false).0;
            &&& after.undo_pos == m.undo_pos
            &&& after.undo_stack == m.undo_stack
            &&& after.redo_stack == m.redo_stack
        }),
{
    let q = m.queued(c, false);
    assert forall|i: int| 0 <= i < q.queue.len() implies !(#[trigger] q.queue[i]).1 by {
        if i < m.queue.len() {
            assert(q.queue[i] == m.queue[i]);
        }
    }
    lemma_nothing_to_note(q);
    lemma_run_keeps_stacks(q);
}

/// An undo, whether or not its change is applied, makes one change fewer that can
/// be undone and one more that can be redone.
///
/// This is said of an undo that makes no undoable change ready: one that waited,
/// and is applied with it, can be undone from then on.
pub proof fn undo_moves_the_stacks(
    m: OpSetView,
    actor: Seq<char>,
    seq: u32,
    message: Option<Seq<char>>,
    deps: ClockView,
)
    requires
        1 <= m.undo_pos <= m.undo_stack.len(),
        m.undo_start().queued(
            (ChangeView { actor, seq, message, deps, ops: m.undo_stack[m.undo_pos - 1] }),
            false,
        ).notes_nothing(),
    ensures
        ({
            let undone = m.undo(actor, seq, message, deps).0;
            &&& undone.undo_pos == m.undo_pos - 1
            &&& undone.undo_stack == m.undo_stack
            &&& undone.redo_stack == m.redo_stack.push(
                redoing(m.store, m.undo_stack[m.undo_pos - 1]),
            )
        }),
{
    let d = ChangeView { actor, seq, message, deps, ops: m.undo_stack[m.undo_pos - 1] };
    lemma_run_keeps_stacks(m.undo_start().queued(d, false));
}

/// A redo, whether or not its change is applied, makes one change more that can be
/// undone and one fewer that can be redone.
///
/// This is said of a redo that makes no undoable change ready.
pub proof fn redo_moves_the_stacks(
    m: OpSetView,
    actor: Seq<char>,
    seq: u32,
    message: Option<Seq<char>>,
    deps: ClockView,
)
    requires
        m.redo_stack.len() > 0,
        m.redo_start().queued(
            (ChangeView { actor, seq, message, deps, ops: m.redo_stack.last() }),
            false,
        ).notes_nothing(),
    ensures
        ({
            let redone = m.redo(actor, seq, message, deps).0;
            &&& redone.undo_pos == m.undo_pos + 1
            &&& redone.undo_stack == m.undo_stack
            &&& redone.redo_stack == m.redo_stack.drop_last()
        }),
{
    let e = ChangeView { actor, seq, message, deps, ops: m.redo_stack.last() };
    lemma_run_keeps_stacks(m.redo_start().queued(e, false));
}

/// Where nothing can be undone or redone, an undo or a redo is refused and changes
/// nothing.
pub proof fn nothing_to_undo_or_redo_changes_nothing(
    m: OpSetView,
    actor: Seq<char>,
    seq: u32,
    message: Option<Seq<char>>,
    deps: ClockView,
)
    ensures
        !(1 <= m.undo_pos <= m.undo_stack.len()) ==> m.undo(actor, seq, message, deps) == (
            m,
            Err::<Seq<DiffView>, ErrorView>(ErrorView::InvalidChange("No undo ops to execute"@)),
        ),
        m.redo_stack.len() == 0 ==> m.redo(actor, seq, message, deps) == (
            m,
            Err::<Seq<DiffView>, ErrorView>(ErrorView::InvalidChange("no redo ops"@)),
        ),
{
}

/// What a run applies does not depend on the stacks.
proof fn lemma_run_without_stacks(m: OpSetView, n: OpSetView)
    requires
        m.delivers_like(n),
    ensures
        m.run().1 == n.run().1,
        m.run().0.delivers_like(n.run().0),
    decreases m.queue.len(),
{
    assert forall|i: int| #[trigger] m.first_ready(i) <==> n.first_ready(i) by {
        if m.first_ready(i) {
            assert forall|j: int| 0 <= j < i implies !n.ready((#[trigger] n.queue[j]).0) by {
                assert(!m.ready(m.queue[j].0));
            }
        }
        if n.first_ready(i) {
            assert forall|j: int| 0 <= j < i implies !m.ready((#[trigger] m.queue[j]).0) by {
                assert(!n.ready(n.queue[j].0));
            }
        }
    }
    if let Some(i) = m.next_ready() {
        assert(m.first_ready(i));
        assert(n.first_ready(i));
        let k = n.next_ready()->Some_0;
        assert(n.first_ready(k));
        assert(i == k) by {
            if i < k {
                assert(!n.ready(n.queue[i].0));
            } else if k < i {
                assert(!m.ready(m.queue[k].0));
            }
        }
        let (c, undoable) = m.queue[i];
        let (next, r) = m.without(i).apply_ready(c, undoable);
        let (other, t) = n.without(i).apply_ready(c, undoable);
        assert(r == t);
        assert(next.delivers_like(other));
        if r is Ok {
            lemma_run_without_stacks(next, other);
        }
    } else {
        if let Some(k) = n.next_ready() {
            assert(n.first_ready(k));
            assert(m.first_ready(k));
        }
    }
}

impl OpSetView {
    /// Whether two operation sets agree in all but the undo and redo stacks.
    pub open spec fn delivers_like(self, other: OpSetView) -> bool {
        &&& self.store == other.store
        &&& self.queue == other.queue
        &&& self.clock == other.clock
        &&& self.states == other.states
    }
}

/// The change that an undo is, is delivered like any change that is not undoable:
/// the same is reported or refused, and but for the stacks the same comes of it.
pub proof fn undo_is_delivered_like_any_change(
    m: OpSetView,
    actor: Seq<char>,
    seq: u32,
    message: Option<Seq<char>>,
    deps: ClockView,
)
    requires
        1 <= m.undo_pos <= m.undo_stack.len(),
    ensures
        ({
            let d = ChangeView { actor, seq, message, deps, ops: m.undo_stack[m.undo_pos - 1] };
            let (undone, r) = m.undo(actor, seq, message, deps);
            let (after, t) = m.receive(d, false);
            r == t && undone.delivers_like(after)
        }),
{
    let d = ChangeView { actor, seq, message, deps, ops: m.undo_stack[m.undo_pos - 1] };
    lemma_run_without_stacks(m.undo_start().queued(d, false), m.queued(d, false));
}

/// The change that a redo is, is delivered like any change that is not undoable.
pub proof fn redo_is_delivered_like_any_change(
    m: OpSetView,
    actor: Seq<char>,
    seq: u32,
    message: Option<Seq<char>>,
    deps: ClockView,
)
    requires
        m.redo_stack.len() > 0,
    ensures
        ({
            let e = ChangeView { actor, seq, message, deps, ops: m.redo_stack.last() };
            let (redone, r) = m.redo(actor, seq, message, deps);
            let (after, t) = m.receive(e, false);
            r == t && redone.delivers_like(after)
        }),
{
    let e = ChangeView { actor, seq, message, deps, ops: m.redo_stack.last() };
    lemma_run_without_stacks(m.redo_start().queued(e, false), m.queued(e, false));
}

/// A change that was undoable can be undone, and what was undone before it
/// cannot be undone again.
pub proof fn undoable_change_can_be_undone(m: OpSetView, c: ChangeView)
    requires
        m.delivered(),
        m.undo_pos <= m.undo_stack.len(),
        comes_alone(m, c, true),
    ensures
        ({
            let after = m.receive(c, true).0;
            &&& after.undo_pos == m.undo_pos + 1
            &&& after.undo_pos == after.undo_stack.len()
            &&& after.undo_stack.drop_last() == m.undo_stack.take(m.undo_pos as int)
        }),
{
    lemma_comes_alone(m, c, true);
    let after = m.receive(c, true).0;
    assert(after.undo_stack.drop_last() =~= m.undo_stack.take(m.undo_pos as int));
}

/// An undo, whether or not its change is applied, makes one change fewer that
/// can be undone and one more that can be redone; a redo after it takes that
/// back.
///
/// This is said of an undo and a redo that make no undoable change ready: one
/// that waited, and is applied with them, can be undone from then on.
pub proof fn redo_follows_undo(
    m: OpSetView,
    actor: Seq<char>,
    seq: u32,
    message: Option<Seq<char>>,
    deps: ClockView,
    redo_actor: Seq<char>,
    redo_seq: u32,
    redo_message: Option<Seq<char>>,
    redo_deps: ClockView,
)
    requires
        1 <= m.undo_pos <= m.undo_stack.len(),
        m.undo_start().queued(
            (ChangeView { actor, seq, message, deps, ops: m.undo_stack[m.undo_pos - 1] }),
            false,
        ).notes_nothing(),
        ({
            let undone = m.undo(actor, seq, message, deps).0;
            undone.redo_start().queued(
                ChangeView {
                    actor: redo_actor,
                    seq: redo_seq,
                    message: redo_message,
                    deps: redo_deps,
                    ops: undone.redo_stack.last(),
                },
                false,
            ).notes_nothing()
        }),
    ensures
        ({
            let undone = m.undo(actor, seq, message, deps).0;
            let redone = undone.redo(redo_actor, redo_seq, redo_message, redo_deps).0;
            &&& undone.undo_pos == m.undo_pos - 1
            &&& undone.undo_stack == m.undo_stack
            &&& undone.redo_stack.len() == m.redo_stack.len() + 1
            &&& redone.undo_pos == m.undo_pos
            &&& redone.undo_stack == m.undo_stack
            &&& redone.redo_stack == m.redo_stack
        }),
{
    let undone = m.undo(actor, seq, message, deps).0;
    undo_moves_the_stacks(m, actor, seq, message, deps);
    redo_moves_the_stacks(undone, redo_actor, redo_seq, redo_message, redo_deps);
    assert(undone.redo_stack.drop_last() =~= m.redo_stack);
}

} // verus!

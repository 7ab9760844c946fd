//! What holds of the order in which changes are applied.

use vstd::prelude::*;

use crate::actor_states::{AppliedView, StatesView};
use crate::clock::ClockView;
use crate::concurrent_operations::incorporated;
use crate::delivery::{progress, OpSetView};
use crate::diff::DiffView;
use crate::error::ErrorView;
use crate::fields::{at_home, lemma_progress_at_home};
use crate::ids::{element_named, ElementIDView, ObjectIDView};
use crate::objects::{applied_op, lemma_applied_op_wf, store_wf, ObjectView, StoreView};
use crate::protocol::{ChangeView, OpView, OperationView};
use crate::text::text_lt;

verus! {

/// Whether the change `seq` of an actor is in a list of changes.
pub open spec fn listed(changes: Seq<ChangeView>, actor: Seq<char>, seq: u32) -> bool {
    exists|j: int|
        0 <= j < changes.len() && (#[trigger] changes[j]).actor == actor && changes[j].seq == seq
}

/// Whether each change of a list comes after all that it needs.
pub open spec fn in_causal_order(changes: Seq<ChangeView>) -> bool {
    forall|i: int, a: Seq<char>, n: u32|
        #![trigger changes[i].needs().get(a), listed(changes.take(i), a, n)]
        0 <= i < changes.len() && 1 <= n <= changes[i].needs().get(a) ==> listed(
            changes.take(i),
            a,
            n,
        )
}

/// Whether no two changes of a list have the same actor and the same number.
pub open spec fn each_once(changes: Seq<ChangeView>) -> bool {
    forall|i: int, j: int|
        0 <= i < j < changes.len() ==> !((#[trigger] changes[i]).actor == (
        #[trigger] changes[j]).actor && changes[i].seq == changes[j].seq)
}

impl StatesView {
    /// The history holds the changes of all actors, and nothing else; and what
    /// a change builds on was applied, and does not include the change itself.
    pub open spec fn consistent(self) -> bool {
        &&& forall|j: int|
            0 <= j < self.history.len() ==> {
                let c = #[trigger] self.history[j];
                self.applied(c.actor, c.seq) is Some && self.applied(c.actor, c.seq)->Some_0.change
                    == c
            }
        &&& forall|a: Seq<char>, n: u32|
            (#[trigger] self.applied(a, n)) is Some ==> {
                let c = self.applied(a, n)->Some_0.change;
                c.actor == a && c.seq == n && self.history.contains(c)
            }
        &&& forall|a: Seq<char>, n: u32, b: Seq<char>|
            (#[trigger] self.deps_of(a, n).get(b)) <= self.log(b).len()
        &&& forall|a: Seq<char>, n: u32|
            (#[trigger] self.applied(a, n)) is Some ==> self.deps_of(a, n).get(a) < n
    }

    /// Whether the change that an operation came in was applied.
    pub open spec fn knows(self, o: OpView) -> bool {
        self.applied(o.actor, o.seq) is Some
    }
}

/// The operations of a field came in applied changes, and are concurrent with
/// one another.
pub open spec fn concurrent_field(s: StatesView, field: Seq<OpView>) -> bool {
    &&& forall|i: int| 0 <= i < field.len() ==> s.knows(#[trigger] field[i])
    &&& forall|i: int, j: int|
        0 <= i < field.len() && 0 <= j < field.len() ==> s.concurrent(
            #[trigger] field[i],
            #[trigger] field[j],
        )
}

/// All fields of an object hold operations that are concurrent with one another.
pub open spec fn concurrent_object(s: StatesView, object: ObjectView) -> bool {
    match object {
        ObjectView::MapObject(m) => forall|k: Seq<char>| #[trigger]
            m.ops.contains_key(k) ==> concurrent_field(s, m.ops[k]),
        ObjectView::List(l) => forall|e: ElementIDView| #[trigger]
            l.ops.contains_key(e) ==> concurrent_field(s, l.ops[e]),
    }
}

/// All fields of a store hold operations that are concurrent with one another.
pub open spec fn concurrent_store(s: StatesView, store: StoreView) -> bool {
    forall|id: ObjectIDView| #[trigger] store.contains_key(id) ==> concurrent_object(s, store[id])
}

impl OpSetView {
    /// Changes were applied once each and in causal order, and each field holds
    /// operations on it that are concurrent with one another.
    pub open spec fn delivered(self) -> bool {
        &&& self.wf()
        &&& self.states.consistent()
        &&& each_once(self.states.history)
        &&& in_causal_order(self.states.history)
        &&& forall|j: int|
            0 <= j < self.states.history.len() ==> self.ready(#[trigger] self.states.history[j])
        &&& concurrent_store(self.states, self.store)
        &&& at_home(self.store)
    }

    /// The clock has seen all that was applied. That is so unless an operation
    /// was refused.
    pub open spec fn complete(self) -> bool {
        forall|a: Seq<char>| #[trigger] self.clock.get(a) == self.states.log(a).len()
    }

    /// Whether `after` has all that this operation set has applied, in the same
    /// order, and maybe more.
    pub open spec fn grew_to(self, after: OpSetView) -> bool {
        &&& self.clock.within(after.clock)
        &&& self.states.history.len() <= after.states.history.len()
        &&& after.states.history.take(self.states.history.len() as int) == self.states.history
    }
}

proof fn lemma_last_reached(s: StatesView, clock: ClockView, actor: Seq<char>, n: u32)
    requires
        forall|m: u32| m > n ==> !s.reaches(clock, actor, m),
    ensures
        exists|seq: u32| s.last_reached(clock, actor, seq),
    decreases n,
{
    if s.reaches(clock, actor, n) {
        assert(s.last_reached(clock, actor, n));
    } else {
        assert(n > 0);
        lemma_last_reached(s, clock, actor, (n - 1) as u32);
    }
}

/// All that something that depends on `clock` builds on is what is reached from
/// `clock`.
pub proof fn lemma_all_deps(s: StatesView, clock: ClockView, actor: Seq<char>)
    ensures
        s.last_reached(clock, actor, s.all_deps(clock).get(actor)),
        clock.get(actor) <= s.all_deps(clock).get(actor),
{
    lemma_last_reached(s, clock, actor, u32::MAX);
    assert(s.reaches(clock, actor, clock.get(actor)));
}

/// What a new change builds on was applied before it.
pub proof fn lemma_deps_bounded(s: StatesView, clock: ClockView, b: Seq<char>)
    requires
        s.consistent(),
        clock.get(b) <= s.log(b).len(),
    ensures
        s.all_deps(clock).get(b) <= s.log(b).len(),
{
    lemma_all_deps(s, clock, b);
    let n = s.all_deps(clock).get(b);
    if n > clock.get(b) {
        let a = choose|a: Seq<char>| n <= #[trigger] s.deps_of(a, clock.get(a)).get(b);
        assert(s.deps_of(a, clock.get(a)).get(b) <= s.log(b).len());
    }
}

/// A new change leaves what is known of the others as it was.
pub proof fn lemma_extended_keeps(s: StatesView, c: ChangeView)
    requires
        c.seq == s.log(c.actor).len() + 1,
    ensures
        forall|a: Seq<char>, n: u32|
            (#[trigger] s.applied(a, n)) is Some ==> s.extended(c).applied(a, n) == s.applied(a, n)
                && s.extended(c).deps_of(a, n) == s.deps_of(a, n),
        forall|a: Seq<char>, n: u32|
            (#[trigger] s.extended(c).applied(a, n)) is Some ==> s.applied(a, n) is Some || (a
                == c.actor && n == c.seq),
        s.extended(c).applied(c.actor, c.seq) == Some(
            AppliedView { change: c, deps: s.all_deps(c.needs()) },
        ),
        forall|a: Seq<char>| #[trigger]
            s.extended(c).log(a).len() == s.log(a).len() + if a == c.actor {
                1int
            } else {
                0
            },
{
    let t = s.extended(c);
    assert forall|a: Seq<char>, n: u32| (#[trigger] s.applied(a, n)) is Some implies t.applied(a, n)
        == s.applied(a, n) && t.deps_of(a, n) == s.deps_of(a, n) by {
        if a == c.actor {
            assert(t.log(a)[n - 1] == s.log(a)[n - 1]);
        }
    }
}

/// Whether a change is the next of its actor, and needs only what was applied.
pub open spec fn comes_next(s: StatesView, c: ChangeView) -> bool {
    &&& c.seq == s.log(c.actor).len() + 1
    &&& forall|b: Seq<char>| #[trigger] c.needs().get(b) <= s.log(b).len()
}

/// The next change of an actor keeps the states consistent.
pub proof fn lemma_extended_consistent(s: StatesView, c: ChangeView)
    requires
        s.consistent(),
        comes_next(s, c),
    ensures
        s.extended(c).consistent(),
{
    let t = s.extended(c);
    lemma_extended_keeps(s, c);
    assert forall|j: int| 0 <= j < t.history.len() implies {
        let d = #[trigger] t.history[j];
        t.applied(d.actor, d.seq) is Some && t.applied(d.actor, d.seq)->Some_0.change == d
    } by {
        if j < s.history.len() {
            assert(t.history[j] == s.history[j]);
        }
    }
    assert forall|a: Seq<char>, n: u32| (#[trigger] t.applied(a, n)) is Some implies {
        let d = t.applied(a, n)->Some_0.change;
        d.actor == a && d.seq == n && t.history.contains(d)
    } by {
        if s.applied(a, n) is Some {
            let d = s.applied(a, n)->Some_0.change;
            let j = choose|j: int| 0 <= j < s.history.len() && s.history[j] == d;
            assert(t.history[j] == d);
        } else {
            assert(t.history[s.history.len() as int] == c);
        }
    }
    assert forall|a: Seq<char>, n: u32, b: Seq<char>|
        (#[trigger] t.deps_of(a, n).get(b)) <= t.log(b).len() by {
        assert(t.log(b).len() >= s.log(b).len());
        if s.applied(a, n) is Some {
            assert(s.deps_of(a, n).get(b) <= s.log(b).len());
        } else if t.applied(a, n) is Some {
            assert(c.needs().get(b) <= s.log(b).len());
            lemma_deps_bounded(s, c.needs(), b);
        }
    }
    assert forall|a: Seq<char>, n: u32| (#[trigger] t.applied(a, n)) is Some implies t.deps_of(
        a,
        n,
    ).get(a) < n by {
        if s.applied(a, n) is None {
            lemma_deps_bounded(s, c.needs(), c.actor);
        }
    }
}

/// A change that is ready and new is the next of its actor.
pub proof fn lemma_new_change(m: OpSetView, c: ChangeView)
    requires
        m.wf(),
        m.states.consistent(),
        c.seq >= 1,
        m.ready(c),
        m.states.applied(c.actor, c.seq) is None,
    ensures
        comes_next(m.states, c),
        m.states.extended(c).consistent(),
{
    let s = m.states;
    assert(c.needs().get(c.actor) <= m.clock.get(c.actor));
    assert(m.clock.get(c.actor) <= s.log(c.actor).len());
    assert(c.needs().get(c.actor) >= c.seq - 1);
    assert forall|b: Seq<char>| #[trigger] c.needs().get(b) <= s.log(b).len() by {
        assert(c.needs().get(b) <= m.clock.get(b));
        assert(m.clock.get(b) <= s.log(b).len());
    }
    lemma_extended_consistent(s, c);
}

/// A new change leaves concurrent operations concurrent.
pub proof fn lemma_extended_concurrent(s: StatesView, c: ChangeView, store: StoreView)
    requires
        c.seq == s.log(c.actor).len() + 1,
        concurrent_store(s, store),
    ensures
        concurrent_store(s.extended(c), store),
{
    let t = s.extended(c);
    lemma_extended_keeps(s, c);
    assert forall|field: Seq<OpView>| #[trigger] concurrent_field(s, field) implies concurrent_field(
        t,
        field,
    ) by {
        assert forall|i: int, j: int|
            0 <= i < field.len() && 0 <= j < field.len() implies t.concurrent(
            #[trigger] field[i],
            #[trigger] field[j],
        ) by {
            assert(s.knows(field[i]) && s.knows(field[j]));
            assert(s.concurrent(field[i], field[j]));
        }
        assert forall|i: int| 0 <= i < field.len() implies t.knows(#[trigger] field[i]) by {
            assert(s.knows(field[i]));
        }
    }
    assert forall|id: ObjectIDView| #[trigger] store.contains_key(id) implies concurrent_object(
        t,
        store[id],
    ) by {
        assert(concurrent_object(s, store[id]));
    }
}

/// Part of a field of concurrent operations is one.
proof fn lemma_filter_concurrent(s: StatesView, field: Seq<OpView>, p: spec_fn(OpView) -> bool)
    requires
        concurrent_field(s, field),
    ensures
        concurrent_field(s, field.filter(p)),
        forall|i: int| 0 <= i < field.filter(p).len() ==> p(#[trigger] field.filter(p)[i]),
        forall|i: int|
            0 <= i < field.filter(p).len() ==> field.contains(#[trigger] field.filter(p)[i]),
{
    let kept = field.filter(p);
    assert forall|i: int| 0 <= i < kept.len() implies p(#[trigger] kept[i]) && field.contains(
        kept[i],
    ) by {
        field.lemma_filter_pred(p, i);
        assert(kept.contains(kept[i]));
        field.lemma_filter_contains_rev(p, kept[i]);
    }
    assert forall|i: int, j: int| 0 <= i < kept.len() && 0 <= j < kept.len() implies s.concurrent(
        #[trigger] kept[i],
        #[trigger] kept[j],
    ) by {
        let x = choose|x: int| 0 <= x < field.len() && field[x] == kept[i];
        let y = choose|y: int| 0 <= y < field.len() && field[y] == kept[j];
        assert(s.concurrent(field[x], field[y]));
    }
    assert forall|i: int| 0 <= i < kept.len() implies s.knows(#[trigger] kept[i]) by {
        let x = choose|x: int| 0 <= x < field.len() && field[x] == kept[i];
        assert(s.knows(field[x]));
    }
}

/// A new operation keeps the operations of a field concurrent.
pub proof fn lemma_incorporated_concurrent(s: StatesView, field: Seq<OpView>, new: OpView)
    requires
        s.consistent(),
        s.knows(new),
        concurrent_field(s, field),
    ensures
        concurrent_field(s, incorporated(s, field, new)),
{
    let after = incorporated(s, field, new);
    match new.op {
        OperationView::Increment { .. } => {
            assert forall|i: int| 0 <= i < after.len() implies (#[trigger] after[i]).actor
                == field[i].actor && after[i].seq == field[i].seq && s.knows(after[i]) by {
                assert(s.knows(field[i]));
            }
            assert forall|i: int, j: int|
                0 <= i < after.len() && 0 <= j < after.len() implies s.concurrent(
                #[trigger] after[i],
                #[trigger] after[j],
            ) by {
                assert(s.concurrent(field[i], field[j]));
            }
        },
        _ => {
            let p = |o: OpView| s.concurrent(o, new);
            let kept = field.filter(p);
            lemma_filter_concurrent(s, field, p);
            if new.op.assigns() {
                let q = |o: OpView| text_lt(new.actor, o.actor);
                let r = |o: OpView| !text_lt(new.actor, o.actor);
                lemma_filter_concurrent(s, kept, q);
                lemma_filter_concurrent(s, kept, r);
                assert(s.deps_of(new.actor, new.seq).get(new.actor) < new.seq);
                assert(s.concurrent(new, new));
                assert forall|i: int| 0 <= i < after.len() implies (#[trigger] after[i] == new
                    || kept.contains(after[i])) by {
                    let n = kept.filter(q).len() as int;
                    if i < n {
                        assert(after[i] == kept.filter(q)[i]);
                    } else if i > n {
                        assert(after[i] == kept.filter(r)[i - n - 1]);
                    }
                }
                assert forall|x: OpView| #[trigger] kept.contains(x) implies s.concurrent(x, new)
                    && s.concurrent(new, x) && s.knows(x) by {
                    let i = choose|i: int| 0 <= i < kept.len() && kept[i] == x;
                    assert(p(kept[i]));
                    assert(s.knows(kept[i]));
                }
                assert forall|i: int, j: int|
                    0 <= i < after.len() && 0 <= j < after.len() implies s.concurrent(
                    #[trigger] after[i],
                    #[trigger] after[j],
                ) by {
                    if kept.contains(after[i]) && kept.contains(after[j]) {
                        let x = choose|x: int| 0 <= x < kept.len() && kept[x] == after[i];
                        let y = choose|y: int| 0 <= y < kept.len() && kept[y] == after[j];
                        assert(s.concurrent(kept[x], kept[y]));
                    }
                }
            }
        },
    }
}

/// A new operation keeps the operations of all fields concurrent.
pub proof fn lemma_applied_concurrent(s: StatesView, store: StoreView, op: OpView)
    requires
        s.consistent(),
        s.knows(op),
        concurrent_store(s, store),
    ensures
        applied_op(store, s, op) matches Ok((after, _, _)) ==> concurrent_store(s, after),
{
    let none = Seq::<OpView>::empty();
    assert(concurrent_field(s, none));
    if let Ok((after, _, _)) = applied_op(store, s, op) {
        let id = op.op.object();
        assert forall|x: ObjectIDView| #[trigger] after.contains_key(x) implies concurrent_object(
            s,
            after[x],
        ) by {
            if x != id {
                assert(store.contains_key(x));
            } else if op.op.makes() {
            } else {
                assert(store.contains_key(x));
                assert(concurrent_object(s, store[x]));
                match store[x] {
                    ObjectView::MapObject(m) => {
                        lemma_incorporated_concurrent(s, m.field(op.op.field()), op);
                    },
                    ObjectView::List(l) => {
                        if op.op.mutates() {
                            if let Some(e) = element_named(op.op.field()) {
                                lemma_incorporated_concurrent(s, l.field(e), op);
                            }
                        }
                    },
                }
            }
        }
    }
}

/// The operations of a change keep a store in order, and its fields concurrent.
pub proof fn lemma_progress_sound(
    store: StoreView,
    s: StatesView,
    c: ChangeView,
    ops: Seq<OperationView>,
)
    requires
        store_wf(store),
        s.consistent(),
        s.applied(c.actor, c.seq) is Some,
        concurrent_store(s, store),
    ensures
        store_wf(progress(store, s, c, ops).store),
        concurrent_store(s, progress(store, s, c, ops).store),
    decreases ops.len(),
{
    if ops.len() > 0 {
        lemma_progress_sound(store, s, c, ops.drop_last());
        let p = progress(store, s, c, ops.drop_last());
        let op = OpView { seq: c.seq, actor: c.actor, op: ops.last() };
        lemma_applied_op_wf(p.store, s, op);
        lemma_applied_concurrent(s, p.store, op);
    }
}

/// A change that is ready keeps an operation set delivered.
pub proof fn lemma_apply_ready_delivered(m: OpSetView, c: ChangeView, undoable: bool)
    requires
        m.delivered(),
        c.seq >= 1,
        m.ready(c),
    ensures
        m.apply_ready(c, undoable).0.delivered(),
        m.grew_to(m.apply_ready(c, undoable).0),
        m.apply_ready(c, undoable).0.queue == m.queue,
        m.apply_ready(c, undoable).1 is Ok ==> m.apply_ready(
            c,
            undoable,
        ).0.states.history.contains(c),
        m.apply_ready(c, undoable).1 is Ok && m.complete() ==> m.apply_ready(
            c,
            undoable,
        ).0.complete(),
{
    let after = m.apply_ready(c, undoable).0;
    let s = m.states;
    assert(s.history.take(s.history.len() as int) =~= s.history);
    match s.add_change(c) {
        Ok(Some(t)) => {
            lemma_new_change(m, c);
            lemma_extended_keeps(s, c);
            lemma_extended_concurrent(s, c, m.store);
            lemma_progress_sound(m.store, t, c, c.ops);
            lemma_progress_at_home(m.store, t, c, c.ops);
            let p = progress(m.store, t, c, c.ops);
            assert(after.store == p.store && after.states == t);
            assert(m.clock.within(after.clock));
            assert(t.history.take(s.history.len() as int) =~= s.history);
            assert(t.history[s.history.len() as int] == c);
            assert forall|a: Seq<char>| #[trigger] after.clock.get(a) <= t.log(a).len() by {
                assert(m.clock.get(a) <= s.log(a).len());
            }
            if p.error is None && m.complete() {
                assert forall|a: Seq<char>| #[trigger] after.clock.get(a) == t.log(a).len() by {
                    assert(m.clock.get(a) == s.log(a).len());
                }
            }
            assert forall|j: int| 0 <= j < t.history.len() implies after.ready(
                #[trigger] t.history[j],
            ) by {
                let d = t.history[j];
                if j < s.history.len() {
                    assert(d == s.history[j]);
                }
                assert(m.ready(d));
                assert forall|a: Seq<char>| #[trigger] d.needs().get(a) <= after.clock.get(a) by {
                    assert(d.needs().get(a) <= m.clock.get(a));
                    assert(m.clock.get(a) <= after.clock.get(a));
                }
            }
            assert forall|i: int, j: int| 0 <= i < j < t.history.len() implies !((
            #[trigger] t.history[i]).actor == (#[trigger] t.history[j]).actor && t.history[i].seq
                == t.history[j].seq) by {
                assert(t.history[i] == s.history[i]);
                let d = s.history[i];
                assert(s.applied(d.actor, d.seq) is Some);
                if j < s.history.len() {
                    assert(t.history[j] == s.history[j]);
                }
            }
            assert forall|i: int, a: Seq<char>, n: u32|
                0 <= i < t.history.len() && 1 <= n <= t.history[i].needs().get(
                    a,
                ) implies #[trigger] listed(t.history.take(i), a, n) by {
                if i < s.history.len() {
                    assert(t.history[i] == s.history[i]);
                    assert(t.history.take(i) =~= s.history.take(i));
                    assert(s.history[i].needs().get(a) >= n);
                    assert(listed(s.history.take(i), a, n));
                } else {
                    assert(c.needs().get(a) <= m.clock.get(a));
                    assert(m.clock.get(a) <= s.log(a).len());
                    assert(s.applied(a, n) is Some);
                    let d = s.applied(a, n)->Some_0.change;
                    let j = choose|j: int| 0 <= j < s.history.len() && s.history[j] == d;
                    assert(t.history.take(i)[j] == d);
                }
            }
        },
        Ok(None) => {
            assert(s.applied(c.actor, c.seq) is Some);
        },
        Err(_) => {},
    }
}

proof fn lemma_grew_on(a: OpSetView, b: OpSetView, c: OpSetView)
    requires
        a.grew_to(b),
        b.grew_to(c),
    ensures
        a.grew_to(c),
{
    let n = a.states.history.len() as int;
    assert forall|x: Seq<char>| #[trigger] a.clock.get(x) <= c.clock.get(x) by {
        assert(a.clock.get(x) <= b.clock.get(x));
        assert(b.clock.get(x) <= c.clock.get(x));
    }
    assert forall|i: int| 0 <= i < n implies c.states.history.take(n)[i] == a.states.history[i] by {
        assert(b.states.history.take(n)[i] == a.states.history[i]);
        assert(c.states.history.take(b.states.history.len() as int)[i] == b.states.history[i]);
    }
    assert(c.states.history.take(n) =~= a.states.history);
}

/// Whether a change waits or was applied.
pub open spec fn in_hand(m: OpSetView, c: ChangeView) -> bool {
    m.waiting().contains(c) || m.states.history.contains(c)
}

/// An operation set stays delivered when the next change is taken out of the
/// queue.
pub proof fn lemma_taken_out(m: OpSetView, i: int)
    requires
        m.delivered(),
        m.next_ready() == Some(i),
    ensures
        0 <= i < m.queue.len(),
        m.queue[i].0.seq >= 1,
        m.without(i).delivered(),
        m.without(i).ready(m.queue[i].0),
{
    assert(m.first_ready(i));
    let w = m.without(i);
    assert forall|j: int| 0 <= j < w.queue.len() implies (#[trigger] w.queue[j]).0.seq >= 1 by {
        let k = if j < i {
            j
        } else {
            j + 1
        };
        assert(w.queue[j] == m.queue[k]);
    }
    assert forall|j: int| 0 <= j < w.states.history.len() implies w.ready(
        #[trigger] w.states.history[j],
    ) by {
        assert(m.ready(m.states.history[j]));
    }
}

pub proof fn lemma_run_delivered(m: OpSetView)
    requires
        m.delivered(),
    ensures
        m.run().0.delivered(),
        m.grew_to(m.run().0),
        m.run().1 is Ok ==> {
            &&& m.run().0.next_ready() is None
            &&& m.complete() ==> m.run().0.complete()
            &&& forall|c: ChangeView| #[trigger] in_hand(m, c) ==> in_hand(m.run().0, c)
        },
    decreases m.queue.len(),
{
    match m.next_ready() {
        None => {
            let n = m.states.history.len() as int;
            assert(m.states.history.take(n) =~= m.states.history);
        },
        Some(i) => {
            assert(m.first_ready(i));
            let (c, undoable) = m.queue[i];
            let w = m.without(i);
            lemma_taken_out(m, i);
            assert(w.delivered());
            assert(w.ready(c));
            if m.complete() {
                assert forall|a: Seq<char>| #[trigger] w.clock.get(a) == w.states.log(a).len() by {
                    assert(m.clock.get(a) == m.states.log(a).len());
                }
            }
            lemma_apply_ready_delivered(w, c, undoable);
            let (next, r) = w.apply_ready(c, undoable);
            assert(m.grew_to(next));
            if r is Ok {
                lemma_run_delivered(next);
                let last = next.run().0;
                lemma_grew_on(m, next, last);
                assert forall|x: ChangeView| #[trigger] in_hand(m, x) implies in_hand(next, x) by {
                    if m.waiting().contains(x) {
                        let j = choose|j: int|
                            0 <= j < m.waiting().len() && m.waiting()[j] == x;
                        if j < i {
                            assert(next.waiting()[j] == x);
                        } else if j > i {
                            assert(next.waiting()[j - 1] == x);
                        }
                    } else {
                        let j = choose|j: int|
                            0 <= j < m.states.history.len() && m.states.history[j] == x;
                        let n = m.states.history.len() as int;
                        assert(next.states.history.take(n)[j] == x);
                        assert(next.states.history[j] == x);
                    }
                }
            }
        },
    }
}

pub proof fn lemma_queued_delivered(m: OpSetView, c: ChangeView, undoable: bool)
    requires
        m.delivered(),
        c.seq >= 1,
    ensures
        m.queued(c, undoable).delivered(),
{
    let q = m.queued(c, undoable);
    assert forall|j: int| 0 <= j < q.states.history.len() implies q.ready(
        #[trigger] q.states.history[j],
    ) by {
        assert(m.ready(m.states.history[j]));
    }
    assert forall|j: int| 0 <= j < q.queue.len() implies (#[trigger] q.queue[j]).0.seq >= 1 by {
        if j < m.queue.len() {
            assert(q.queue[j] == m.queue[j]);
        }
    }
}

/// Before any change came, nothing is out of order.
pub proof fn nothing_is_out_of_order_at_first()
    ensures
        OpSetView::init().delivered(),
        OpSetView::init().complete(),
{
    let m = OpSetView::init();
    assert(m.states.history.len() == 0);
    assert forall|a: Seq<char>, n: u32| (#[trigger] m.states.applied(a, n)) is None by {}
    assert(forall|a: Seq<char>| #[trigger] m.clock.get(a) == 0);
}

/// Whatever change comes in, changes are applied once each, after all that they
/// need, and each field holds operations that are concurrent with one another;
/// also where an operation is refused.
pub proof fn changes_are_delivered_in_causal_order(m: OpSetView, c: ChangeView, undoable: bool)
    requires
        m.delivered(),
        c.seq >= 1,
    ensures
        m.receive(c, undoable).0.delivered(),
{
    lemma_queued_delivered(m, c, undoable);
    lemma_run_delivered(m.queued(c, undoable));
}

/// As long as nothing is refused, the clock has seen all that was applied.
pub proof fn clock_has_seen_what_was_applied(m: OpSetView, c: ChangeView, undoable: bool)
    requires
        m.delivered(),
        m.complete(),
        c.seq >= 1,
        m.receive(c, undoable).1 is Ok,
    ensures
        m.receive(c, undoable).0.complete(),
{
    let q = m.queued(c, undoable);
    lemma_queued_delivered(m, c, undoable);
    assert forall|a: Seq<char>| #[trigger] q.clock.get(a) == q.states.log(a).len() by {
        assert(m.clock.get(a) == m.states.log(a).len());
    }
    lemma_run_delivered(q);
}

/// An undo is delivered in causal order too.
pub proof fn undo_is_delivered_in_causal_order(
    m: OpSetView,
    actor: Seq<char>,
    seq: u32,
    message: Option<Seq<char>>,
    deps: ClockView,
)
    requires
        m.delivered(),
        seq >= 1,
    ensures
        m.undo(actor, seq, message, deps).0.delivered(),
{
    if 1 <= m.undo_pos <= m.undo_stack.len() {
        let ops = m.undo_stack[m.undo_pos - 1];
        let before = m.undo_start();
        lemma_stacks_do_not_matter(m, before);
        changes_are_delivered_in_causal_order(
            before,
            ChangeView { actor, seq, message, deps, ops },
            false,
        );
    }
}

/// A redo is delivered in causal order too.
pub proof fn redo_is_delivered_in_causal_order(
    m: OpSetView,
    actor: Seq<char>,
    seq: u32,
    message: Option<Seq<char>>,
    deps: ClockView,
)
    requires
        m.delivered(),
        seq >= 1,
    ensures
        m.redo(actor, seq, message, deps).0.delivered(),
{
    if m.redo_stack.len() > 0 {
        let before = m.redo_start();
        lemma_stacks_do_not_matter(m, before);
        changes_are_delivered_in_causal_order(
            before,
            ChangeView { actor, seq, message, deps, ops: m.redo_stack.last() },
            false,
        );
    }
}

pub proof fn lemma_stacks_do_not_matter(m: OpSetView, n: OpSetView)
    requires
        m.delivered(),
        n.store == m.store,
        n.queue == m.queue,
        n.clock == m.clock,
        n.states == m.states,
    ensures
        n.delivered(),
{
    assert forall|j: int| 0 <= j < n.states.history.len() implies n.ready(
        #[trigger] n.states.history[j],
    ) by {
        assert(m.ready(m.states.history[j]));
    }
}

/// When a change came in and nothing was refused, no change is left in the queue
/// that is ready.
pub proof fn no_ready_change_is_left(m: OpSetView, c: ChangeView, undoable: bool)
    requires
        m.receive(c, undoable).1 is Ok,
    ensures
        ({
            let after = m.receive(c, undoable).0;
            forall|i: int| 0 <= i < after.queue.len() ==> !after.ready((#[trigger] after.queue[i]).0)
        }),
{
    let q = m.queued(c, undoable);
    lemma_run_comes_to_rest(q);
    let after = q.run().0;
    assert forall|i: int| 0 <= i < after.queue.len() implies !after.ready(
        (#[trigger] after.queue[i]).0,
    ) by {
        if after.ready(after.queue[i].0) {
            lemma_some_first_ready(after, i);
        }
    }
}

pub proof fn lemma_run_comes_to_rest(m: OpSetView)
    ensures
        m.run().1 is Ok ==> m.run().0.next_ready() is None,
    decreases m.queue.len(),
{
    if let Some(i) = m.next_ready() {
        assert(m.first_ready(i));
        let (c, undoable) = m.queue[i];
        let (next, r) = m.without(i).apply_ready(c, undoable);
        assert(next.queue == m.without(i).queue);
        if r is Ok {
            lemma_run_comes_to_rest(next);
        }
    }
}

/// If a change of the queue is ready, there is a first one.
pub proof fn lemma_some_first_ready(m: OpSetView, i: int)
    requires
        0 <= i < m.queue.len(),
        m.ready(m.queue[i].0),
    ensures
        m.next_ready() is Some,
    decreases i,
{
    if exists|j: int| 0 <= j < i && m.ready((#[trigger] m.queue[j]).0) {
        let j = choose|j: int| 0 <= j < i && m.ready((#[trigger] m.queue[j]).0);
        lemma_some_first_ready(m, j);
    } else {
        assert(m.first_ready(i));
    }
}

/// No change is lost: unless one is refused, the change that came in and those
/// that waited or were applied before wait or are applied.
pub proof fn no_change_is_lost(m: OpSetView, c: ChangeView, undoable: bool, x: ChangeView)
    requires
        m.delivered(),
        c.seq >= 1,
        m.receive(c, undoable).1 is Ok,
        x == c || in_hand(m, x),
    ensures
        in_hand(m.receive(c, undoable).0, x),
{
    let q = m.queued(c, undoable);
    lemma_queued_delivered(m, c, undoable);
    lemma_run_delivered(q);
    assert(in_hand(q, x)) by {
        if x == c {
            assert(q.waiting()[m.queue.len() as int] == x);
        } else if m.waiting().contains(x) {
            let j = choose|j: int| 0 <= j < m.waiting().len() && m.waiting()[j] == x;
            assert(q.waiting()[j] == x);
        }
    }
}

/// What was applied stays applied, in the same order.
pub proof fn history_only_grows(m: OpSetView, c: ChangeView, undoable: bool)
    requires
        m.delivered(),
        c.seq >= 1,
    ensures
        m.grew_to(m.receive(c, undoable).0),
{
    let q = m.queued(c, undoable);
    lemma_queued_delivered(m, c, undoable);
    lemma_run_delivered(q);
    assert(m.grew_to(q)) by {
        assert(m.states.history.take(m.states.history.len() as int) =~= m.states.history);
    }
    lemma_grew_on(m, q, q.run().0);
}

/// A change that was applied before is ignored when it comes again.
pub proof fn change_that_comes_again_is_ignored(m: OpSetView, c: ChangeView, undoable: bool)
    requires
        m.delivered(),
        m.next_ready() is None,
        m.states.history.contains(c),
    ensures
        m.receive(c, undoable) == (
            m,
            Ok::<Seq<DiffView>, ErrorView>(Seq::empty()),
        ),
{
    let q = m.queued(c, undoable);
    let j = choose|j: int| 0 <= j < m.states.history.len() && m.states.history[j] == c;
    assert(m.ready(m.states.history[j]));
    lemma_last_is_next(m, c, undoable);
    assert(m.states.applied(c.actor, c.seq) is Some);
    assert(q.without(m.queue.len() as int).apply_ready(c, undoable).0 == m);
    let none = Seq::<DiffView>::empty();
    assert(none + none =~= none);
    assert(m.run() == (m, Ok::<Seq<DiffView>, ErrorView>(none)));
}

/// Where no change of the queue is ready, one that comes in and is ready is the
/// next.
pub proof fn lemma_last_is_next(m: OpSetView, c: ChangeView, undoable: bool)
    requires
        m.next_ready() is None,
        m.ready(c),
    ensures
        m.queued(c, undoable).next_ready() == Some(m.queue.len() as int),
        m.queued(c, undoable).without(m.queue.len() as int) == m,
{
    let q = m.queued(c, undoable);
    let n = m.queue.len() as int;
    assert forall|j: int| 0 <= j < n implies !q.ready((#[trigger] q.queue[j]).0) by {
        assert(q.queue[j] == m.queue[j]);
        if m.ready(m.queue[j].0) {
            lemma_some_first_ready(m, j);
        }
    }
    assert(q.queue[n] == (c, undoable));
    assert(q.ready(q.queue[n].0));
    assert(q.first_ready(n));
    assert forall|j: int| q.first_ready(j) implies j == n by {
        if j < n {
            assert(!q.ready(q.queue[j].0));
        }
    }
    assert(q.queue.remove(n) =~= m.queue);
}

/// Where neither a change of the queue nor one that comes in is ready, the one
/// that comes in waits.
pub proof fn lemma_waits(m: OpSetView, c: ChangeView, undoable: bool)
    requires
        m.next_ready() is None,
        !m.ready(c),
    ensures
        m.receive(c, undoable) == (
            m.queued(c, undoable),
            Ok::<Seq<DiffView>, ErrorView>(Seq::empty()),
        ),
{
    let q = m.queued(c, undoable);
    assert forall|j: int| !q.first_ready(j) by {
        if q.first_ready(j) {
            if j < m.queue.len() {
                assert(q.queue[j] == m.queue[j]);
                lemma_some_first_ready(m, j);
            }
        }
    }
}

/// A change at the end of the queue comes after all others that can be applied
/// without it.
proof fn lemma_last_comes_last(m: OpSetView, c: ChangeView, undoable: bool)
    ensures
        ({
            let q = m.queued(c, undoable);
            let (n, r) = m.run();
            let (a, d) = q.run();
            match r {
                Err(e) => a == n.queued(c, undoable) && d == r,
                Ok(first) => {
                    let (b, rest) = n.receive(c, undoable);
                    &&& a == b
                    &&& match rest {
                        Ok(rest) => d == Ok::<
                            Seq<DiffView>,
                            ErrorView,
                        >(first + rest),
                        Err(_) => d == rest,
                    }
                },
            }
        }),
    decreases m.queue.len(),
{
    let q = m.queued(c, undoable);
    match m.next_ready() {
        None => {
            let (_, rest) = m.receive(c, undoable);
            if let Ok(rest) = rest {
                assert(Seq::<DiffView>::empty() + rest =~= rest);
            }
        },
        Some(i) => {
            assert(m.first_ready(i));
            assert(q.queue[i] == m.queue[i]);
            assert forall|j: int| 0 <= j < i implies !q.ready((#[trigger] q.queue[j]).0) by {
                assert(!m.ready(m.queue[j].0));
            }
            assert(q.ready(q.queue[i].0));
            assert(q.first_ready(i));
            assert forall|j: int| q.first_ready(j) implies j == i by {
                if j < i {
                    assert(!q.ready(q.queue[j].0));
                } else if j > i {
                    assert(!q.ready(q.queue[i].0));
                }
            }
            assert(q.next_ready() == Some(i));
            let w = m.without(i);
            let v = q.without(i);
            assert(v.queue =~= w.queue.push((c, undoable)));
            let (x, flag) = m.queue[i];
            let (next, r) = w.apply_ready(x, flag);
            let (next_q, r_q) = v.apply_ready(x, flag);
            assert(next_q == next.queued(c, undoable));
            assert(r_q == r);
            if let Ok(first) = r {
                lemma_last_comes_last(next, c, undoable);
                let (n, s) = next.run();
                if let Ok(second) = s {
                    let (_, rest) = n.receive(c, undoable);
                    if let Ok(rest) = rest {
                        assert(first + (second + rest) =~= (first + second) + rest);
                    }
                }
            }
        },
    }
}

/// A change that comes before one that it depends on waits for it: whichever
/// comes first, in the end the same was applied, the same noted to undo it, and
/// the same reported. This is
/// said of a first change that is not refused, nor what is applied with it.
pub proof fn early_change_waits(
    m: OpSetView,
    first: ChangeView,
    first_undoable: bool,
    second: ChangeView,
    second_undoable: bool,
)
    requires
        m.next_ready() is None,
        m.ready(first),
        !m.ready(second),
        m.receive(first, first_undoable).1 is Ok,
    ensures
        ({
            let (waiting, nothing) = m.receive(second, second_undoable);
            let (late, report) = waiting.receive(first, first_undoable);
            let (one, report_one) = m.receive(first, first_undoable);
            let (both, report_two) = one.receive(second, second_undoable);
            &&& nothing == Ok::<Seq<DiffView>, ErrorView>(Seq::empty())
            &&& late == both
            &&& match report_two {
                Ok(two) => report == Ok::<Seq<DiffView>, ErrorView>(
                    report_one->Ok_0 + two,
                ),
                Err(e) => report == report_two,
            }
        }),
{
    let q1 = m.queued(first, first_undoable);
    let q2 = m.queued(second, second_undoable);
    let q12 = q1.queued(second, second_undoable);
    let q21 = q2.queued(first, first_undoable);
    lemma_waits(m, second, second_undoable);
    lemma_last_comes_last(q1, second, second_undoable);
    // The first change is the only one that is ready, wherever it stands.
    let n = m.queue.len() as int;
    lemma_last_is_next(m, first, first_undoable);
    assert(q2.next_ready() is None) by {
        assert forall|j: int| !q2.first_ready(j) by {
            if q2.first_ready(j) && j < n {
                assert(q2.queue[j] == m.queue[j]);
                lemma_some_first_ready(m, j);
            }
        }
    }
    assert(q2.ready(first));
    lemma_last_is_next(q2, first, first_undoable);
    assert(q21.next_ready() == Some(n + 1));
    assert(q12.next_ready() == Some(n)) by {
        assert(q12.queue[n] == (first, first_undoable));
        assert forall|j: int| 0 <= j < n implies !q12.ready((#[trigger] q12.queue[j]).0) by {
            assert(q12.queue[j] == m.queue[j]);
            if m.ready(m.queue[j].0) {
                lemma_some_first_ready(m, j);
            }
        }
        assert(q12.ready(q12.queue[n].0));
        assert(q12.first_ready(n));
        assert forall|j: int| q12.first_ready(j) implies j == n by {
            if j < n {
                assert(!q12.ready(q12.queue[j].0));
            } else if j > n {
                assert(!q12.ready(q12.queue[n].0));
            }
        }
    }
    assert(q12.without(n).queue =~= q2.queue);
    assert(q21.without(n + 1).queue =~= q2.queue);
    assert(q12.run() == q21.run());
}

} // verus!

//! What holds of changes that were made independently of one another: it does
//! not matter in which order they come.

use vstd::prelude::*;

use crate::actor_states::StatesView;
use crate::causal_laws::{
    comes_next, concurrent_field, concurrent_object, concurrent_store, each_once, lemma_all_deps,
    lemma_applied_concurrent, lemma_apply_ready_delivered, lemma_deps_bounded,
    lemma_extended_concurrent, lemma_extended_consistent, lemma_extended_keeps, lemma_new_change,
    lemma_queued_delivered, lemma_taken_out,
};
use crate::clock::{lemma_clock_equal, ClockView};
use crate::concurrent_operations::{incorporated, placed};
use crate::delivery::{progress, OpSetView};
use crate::ids::{element_named, ElementIDView, ObjectIDView};
use crate::list_laws::{
    grown_list_has_order, order_does_not_depend_on_arrival, same_insertions,
};
use crate::list_order::followers;
use crate::objects::{
    applied_op, empty_store, field_of, store_wf, ListStateView, ObjectView, StoreView,
};
use crate::protocol::{ChangeView, OpView, OperationView};
use crate::seqs::lemma_filter_all;
use crate::text::{lemma_text_lt_irreflexive, lemma_text_lt_total, lemma_text_lt_transitive, text_lt};

verus! {

/// Filters can be applied in either order.
proof fn lemma_filters_commute<A>(s: Seq<A>, p: spec_fn(A) -> bool, q: spec_fn(A) -> bool)
    ensures
        s.filter(p).filter(q) == s.filter(q).filter(p),
    decreases s.len(),
{
    if s.len() == 0 {
        reveal(Seq::filter);
        assert(s.filter(p) =~= s);
        assert(s.filter(q) =~= s);
    } else {
        let rest = s.drop_last();
        let x = s.last();
        assert(s =~= rest.push(x));
        lemma_filters_commute(rest, p, q);
        rest.lemma_filter_push(x, p);
        rest.lemma_filter_push(x, q);
        rest.filter(p).lemma_filter_push(x, q);
        rest.filter(q).lemma_filter_push(x, p);
    }
}

/// Filters can be applied before or after the entries are changed, if that
/// makes no difference to the filter.
proof fn lemma_filter_map_commute<A>(s: Seq<A>, p: spec_fn(A) -> bool, f: spec_fn(A) -> A)
    requires
        forall|x: A| #[trigger] p(f(x)) == p(x),
    ensures
        s.map_values(f).filter(p) == s.filter(p).map_values(f),
    decreases s.len(),
{
    if s.len() == 0 {
        reveal(Seq::filter);
        assert(s.map_values(f) =~= s);
        assert(s.filter(p) =~= s);
    } else {
        let rest = s.drop_last();
        let x = s.last();
        assert(s =~= rest.push(x));
        assert(s.map_values(f) =~= rest.map_values(f).push(f(x)));
        lemma_filter_map_commute(rest, p, f);
        rest.lemma_filter_push(x, p);
        rest.map_values(f).lemma_filter_push(f(x), p);
        assert(p(f(x)) == p(x));
        if p(x) {
            assert(rest.filter(p).push(x).map_values(f) =~= rest.filter(p).map_values(f).push(
                f(x),
            ));
        }
    }
}

/// Leaving operations out of a field in which one was put that stays.
proof fn lemma_placed_filter(field: Seq<OpView>, new: OpView, p: spec_fn(OpView) -> bool)
    requires
        p(new),
    ensures
        placed(field, new).filter(p) == placed(field.filter(p), new),
{
    let q = |o: OpView| text_lt(new.actor, o.actor);
    let r = |o: OpView| !text_lt(new.actor, o.actor);
    lemma_filters_commute(field, q, p);
    lemma_filters_commute(field, r, p);
    Seq::filter_distributes_over_add(field.filter(q) + seq![new], field.filter(r), p);
    Seq::filter_distributes_over_add(field.filter(q), seq![new], p);
    assert(seq![new].filter(p) == seq![new]) by {
        lemma_filter_all(seq![new], p);
    }
}

/// Two operations by different actors can be put in a field in either order.
proof fn lemma_placed_commute(field: Seq<OpView>, a: OpView, b: OpView)
    requires
        text_lt(a.actor, b.actor),
    ensures
        placed(placed(field, a), b) == placed(placed(field, b), a),
{
    let qa = |o: OpView| text_lt(a.actor, o.actor);
    let ra = |o: OpView| !text_lt(a.actor, o.actor);
    let qb = |o: OpView| text_lt(b.actor, o.actor);
    let rb = |o: OpView| !text_lt(b.actor, o.actor);
    let above = field.filter(qa);
    let below = field.filter(ra);
    let top = field.filter(qb);
    let rest = field.filter(rb);
    assert(!text_lt(b.actor, a.actor)) by {
        if text_lt(b.actor, a.actor) {
            lemma_text_lt_transitive(a.actor, b.actor, a.actor);
            lemma_text_lt_irreflexive(a.actor);
        }
    }
    // The operations of actors after `b` are operations of actors after `a`.
    assert(above.filter(qb) == top) by {
        lemma_filters_commute(field, qa, qb);
        assert forall|i: int| 0 <= i < top.len() implies qa(#[trigger] top[i]) by {
            field.lemma_filter_pred(qb, i);
            lemma_text_lt_transitive(a.actor, b.actor, top[i].actor);
        }
        lemma_filter_all(top, qa);
    }
    assert(below.filter(qb).len() == 0) by {
        assert forall|i: int| 0 <= i < below.len() implies !qb(#[trigger] below[i]) by {
            field.lemma_filter_pred(ra, i);
            if qb(below[i]) {
                lemma_text_lt_transitive(a.actor, b.actor, below[i].actor);
            }
        }
        below.lemma_all_neg_filter_empty(qb);
    }
    assert(below.filter(rb) == below) by {
        assert forall|i: int| 0 <= i < below.len() implies rb(#[trigger] below[i]) by {
            field.lemma_filter_pred(ra, i);
            if qb(below[i]) {
                lemma_text_lt_transitive(a.actor, b.actor, below[i].actor);
            }
        }
        lemma_filter_all(below, rb);
    }
    assert(top.filter(qa) == top) by {
        lemma_filters_commute(field, qa, qb);
    }
    assert(top.filter(ra).len() == 0) by {
        assert forall|i: int| 0 <= i < top.len() implies !ra(#[trigger] top[i]) by {
            field.lemma_filter_pred(qb, i);
            lemma_text_lt_transitive(a.actor, b.actor, top[i].actor);
        }
        top.lemma_all_neg_filter_empty(ra);
    }
    lemma_filters_commute(field, qa, rb);
    lemma_filters_commute(field, ra, rb);
    let between = above.filter(rb);
    let one = seq![a];
    let two = seq![b];
    assert(one.filter(qb).len() == 0) by {
        one.lemma_all_neg_filter_empty(qb);
    }
    assert(one.filter(rb) == one) by {
        lemma_filter_all(one, rb);
    }
    assert(two.filter(qa) == two) by {
        lemma_filter_all(two, qa);
    }
    assert(two.filter(ra).len() == 0) by {
        two.lemma_all_neg_filter_empty(ra);
    }
    let pa = placed(field, a);
    let pb = placed(field, b);
    Seq::filter_distributes_over_add(above + one, below, qb);
    Seq::filter_distributes_over_add(above, one, qb);
    Seq::filter_distributes_over_add(above + one, below, rb);
    Seq::filter_distributes_over_add(above, one, rb);
    assert(pa.filter(qb) =~= top);
    assert(pa.filter(rb) =~= between + one + below);
    Seq::filter_distributes_over_add(top + two, rest, qa);
    Seq::filter_distributes_over_add(top, two, qa);
    Seq::filter_distributes_over_add(top + two, rest, ra);
    Seq::filter_distributes_over_add(top, two, ra);
    assert(pb.filter(qa) =~= top + two + between);
    assert(pb.filter(ra) =~= below);
    assert(placed(pa, b) =~= top + two + between + one + below);
    assert(placed(pb, a) =~= top + two + between + one + below);
}

/// What an increment makes of the operations on a field.
spec fn stepped_up(s: StatesView, inc: OpView) -> spec_fn(OpView) -> OpView {
    |o: OpView|
        if s.concurrent(o, inc) {
            o
        } else {
            OpView { op: o.op.incremented(inc.op->Increment_value), ..o }
        }
}

/// An increment and another operation that are concurrent can come in either
/// order.
proof fn lemma_increment_commutes(s: StatesView, field: Seq<OpView>, inc: OpView, b: OpView)
    requires
        inc.op is Increment,
        b.op.mutates(),
        s.concurrent(inc, b),
    ensures
        incorporated(s, incorporated(s, field, inc), b) == incorporated(
            s,
            incorporated(s, field, b),
            inc,
        ),
{
    let f = stepped_up(s, inc);
    assert(incorporated(s, field, inc) =~= field.map_values(f));
    if b.op is Increment {
        let left = incorporated(s, incorporated(s, field, inc), b);
        let right = incorporated(s, incorporated(s, field, b), inc);
        assert forall|i: int| 0 <= i < field.len() implies left[i] == right[i] by {}
        assert(left =~= right);
    } else {
        let p = |o: OpView| s.concurrent(o, b);
        let kept = field.filter(p);
        assert forall|o: OpView| #[trigger] p(f(o)) == p(o) by {}
        lemma_filter_map_commute(field, p, f);
        assert(incorporated(s, kept, inc) =~= kept.map_values(f));
        if b.op.assigns() {
            let q = |o: OpView| text_lt(b.actor, o.actor);
            let r = |o: OpView| !text_lt(b.actor, o.actor);
            assert forall|o: OpView| #[trigger] q(f(o)) == q(o) by {}
            assert forall|o: OpView| #[trigger] r(f(o)) == r(o) by {}
            lemma_filter_map_commute(kept, q, f);
            lemma_filter_map_commute(kept, r, f);
            assert(f(b) == b);
            let after = placed(kept, b);
            assert(incorporated(s, after, inc) =~= after.map_values(f));
            assert(after.map_values(f) =~= kept.filter(q).map_values(f) + seq![b] + kept.filter(
                r,
            ).map_values(f));
        }
    }
}

/// Operations on a field that are concurrent and by different actors can come
/// in either order.
pub proof fn concurrent_operations_commute(
    s: StatesView,
    field: Seq<OpView>,
    a: OpView,
    b: OpView,
)
    requires
        a.op.mutates(),
        b.op.mutates(),
        s.concurrent(a, b),
        a.actor != b.actor,
    ensures
        incorporated(s, incorporated(s, field, a), b) == incorporated(
            s,
            incorporated(s, field, b),
            a,
        ),
{
    if a.op is Increment {
        lemma_increment_commutes(s, field, a, b);
    } else if b.op is Increment {
        lemma_increment_commutes(s, field, b, a);
    } else {
        let p = |o: OpView| s.concurrent(o, a);
        let q = |o: OpView| s.concurrent(o, b);
        lemma_filters_commute(field, p, q);
        let kept = field.filter(p).filter(q);
        if a.op.assigns() {
            lemma_placed_filter(field.filter(p), a, q);
        }
        if b.op.assigns() {
            lemma_placed_filter(field.filter(q), b, p);
        }
        if a.op.assigns() && b.op.assigns() {
            lemma_text_lt_total(a.actor, b.actor);
            if text_lt(a.actor, b.actor) {
                lemma_placed_commute(kept, a, b);
            } else {
                lemma_placed_commute(kept, b, a);
            }
        }
    }
}

/// Whether two objects hold the same. The order in which fields were first
/// written, and that in which insertions came, does not count.
pub open spec fn same_object(a: ObjectView, b: ObjectView) -> bool {
    match (a, b) {
        (ObjectView::MapObject(m), ObjectView::MapObject(n)) => {
            &&& m.ops == n.ops
            &&& m.map_type == n.map_type
            &&& m.object_id == n.object_id
        },
        (ObjectView::List(l), ObjectView::List(k)) => {
            &&& l.ops == k.ops
            &&& l.insertions == k.insertions
            &&& same_insertions(l.following, k.following)
            &&& l.max_elem == k.max_elem
            &&& l.sequence_type == k.sequence_type
            &&& l.object_id == k.object_id
        },
        _ => false,
    }
}

/// Whether two stores hold the same document.
pub open spec fn same_document(a: StoreView, b: StoreView) -> bool {
    &&& a.dom() == b.dom()
    &&& forall|id: ObjectIDView| #[trigger] a.contains_key(id) ==> same_object(a[id], b[id])
}

/// The document after an operation, unless the operation is refused.
pub open spec fn after_op(store: StoreView, s: StatesView, op: OpView) -> Option<StoreView> {
    match applied_op(store, s, op) {
        Ok((after, _, _)) => Some(after),
        Err(_) => None,
    }
}

/// An object after an operation that does not make it.
spec fn object_after(o: ObjectView, s: StatesView, op: OpView) -> Option<ObjectView> {
    match op.op {
        OperationView::Insert { key, elem, .. } => match o {
            ObjectView::MapObject(_) => None,
            ObjectView::List(l) => match l.insert_after(key, op.actor, elem) {
                Ok((l, _, _)) => Some(ObjectView::List(l)),
                Err(_) => None,
            },
        },
        _ => match o.mutate(s, op, op.op.field()) {
            Ok((o, _, _)) => Some(o),
            Err(_) => None,
        },
    }
}

/// A store after an operation that makes no object.
proof fn lemma_after_op(store: StoreView, s: StatesView, op: OpView)
    requires
        !op.op.makes(),
    ensures
        ({
            let id = op.op.object();
            after_op(store, s, op) == if store.contains_key(id) {
                match object_after(store[id], s, op) {
                    Some(o) => Some(store.insert(id, o)),
                    None => None,
                }
            } else {
                None
            }
        }),
{
}

/// Two operations that may come in either order: neither makes the object that
/// the other is on, or both make it alike.
pub open spec fn independent(a: OperationView, b: OperationView) -> bool {
    a.makes() || b.makes() ==> a.object() != b.object() || a == b
}

proof fn lemma_same_insertions_push(
    f: Map<ElementIDView, Seq<ElementIDView>>,
    g: Map<ElementIDView, Seq<ElementIDView>>,
    p: ElementIDView,
    x: ElementIDView,
)
    requires
        same_insertions(f, g),
    ensures
        same_insertions(
            f.insert(p, followers(f, p).push(x)),
            g.insert(p, followers(g, p).push(x)),
        ),
{
    broadcast use vstd::seq_lib::group_to_multiset_ensures;

    let f2 = f.insert(p, followers(f, p).push(x));
    let g2 = g.insert(p, followers(g, p).push(x));
    assert forall|e: ElementIDView| #[trigger]
        followers(f2, e).to_multiset() == followers(g2, e).to_multiset() by {
        assert(followers(f, e).to_multiset() == followers(g, e).to_multiset());
    }
}

/// An operation does the same to objects that hold the same.
proof fn lemma_same_object_after(a: ObjectView, b: ObjectView, s: StatesView, op: OpView)
    requires
        same_object(a, b),
        object_after(a, s, op) is Some,
        !op.op.makes(),
    ensures
        object_after(b, s, op) is Some,
        same_object(object_after(a, s, op)->Some_0, object_after(b, s, op)->Some_0),
{
    match (a, b) {
        (ObjectView::List(l), ObjectView::List(k)) => {
            if let OperationView::Insert { key, elem, .. } = op.op {
                lemma_same_insertions_push(
                    l.following,
                    k.following,
                    key,
                    ElementIDView::SpecificElementID(op.actor, elem),
                );
            }
        },
        _ => {},
    }
}

/// An operation does the same to stores that hold the same document.
proof fn lemma_same_after(a: StoreView, b: StoreView, s: StatesView, op: OpView)
    requires
        same_document(a, b),
        after_op(a, s, op) is Some,
    ensures
        after_op(b, s, op) is Some,
        same_document(after_op(a, s, op)->Some_0, after_op(b, s, op)->Some_0),
{
    let id = op.op.object();
    let x = after_op(a, s, op)->Some_0;
    if !op.op.makes() {
        lemma_after_op(a, s, op);
        lemma_after_op(b, s, op);
        assert(a.contains_key(id) && b.contains_key(id));
        lemma_same_object_after(a[id], b[id], s, op);
    }
    let y = after_op(b, s, op)->Some_0;
    assert(x.dom() =~= y.dom());
    assert forall|i: ObjectIDView| #[trigger] x.contains_key(i) implies same_object(x[i], y[i]) by {
        if i != id {
            assert(a.contains_key(i));
        }
    }
}

/// Two concurrent operations on an object can come in either order.
proof fn lemma_object_commutes(o: ObjectView, s: StatesView, a: OpView, b: OpView)
    requires
        !a.op.makes(),
        !b.op.makes(),
        s.concurrent(a, b),
        a.actor != b.actor,
        object_after(o, s, a) is Some,
        object_after(object_after(o, s, a)->Some_0, s, b) is Some,
    ensures
        object_after(o, s, b) is Some,
        object_after(object_after(o, s, b)->Some_0, s, a) is Some,
        same_object(
            object_after(object_after(o, s, a)->Some_0, s, b)->Some_0,
            object_after(object_after(o, s, b)->Some_0, s, a)->Some_0,
        ),
{
    match o {
        ObjectView::MapObject(m) => {
            let j = a.op.field();
            let k = b.op.field();
            let left = object_after(object_after(o, s, a)->Some_0, s, b)->Some_0->MapObject_0;
            let right = object_after(object_after(o, s, b)->Some_0, s, a)->Some_0->MapObject_0;
            if j == k {
                concurrent_operations_commute(s, m.field(j), a, b);
            }
            assert(left.ops =~= right.ops);
        },
        ObjectView::List(l) => {
            lemma_list_commutes(l, s, a, b);
        },
    }
}

proof fn lemma_list_commutes(l: ListStateView, s: StatesView, a: OpView, b: OpView)
    requires
        !a.op.makes(),
        !b.op.makes(),
        s.concurrent(a, b),
        a.actor != b.actor,
        object_after(ObjectView::List(l), s, a) is Some,
        object_after(object_after(ObjectView::List(l), s, a)->Some_0, s, b) is Some,
    ensures
        object_after(ObjectView::List(l), s, b) is Some,
        object_after(object_after(ObjectView::List(l), s, b)->Some_0, s, a) is Some,
        same_object(
            object_after(object_after(ObjectView::List(l), s, a)->Some_0, s, b)->Some_0,
            object_after(object_after(ObjectView::List(l), s, b)->Some_0, s, a)->Some_0,
        ),
{
    broadcast use vstd::seq_lib::group_to_multiset_ensures;

    let o = ObjectView::List(l);
    match (a.op, b.op) {
        (
            OperationView::Insert { key: p, elem: m, .. },
            OperationView::Insert { key: q, elem: n, .. },
        ) => {
            let x = ElementIDView::SpecificElementID(a.actor, m);
            let y = ElementIDView::SpecificElementID(b.actor, n);
            let left = l.with_insertion(p, a.actor, m).with_insertion(q, b.actor, n);
            let right = l.with_insertion(q, b.actor, n).with_insertion(p, a.actor, m);
            assert(left.ops =~= right.ops);
            assert(left.insertions =~= right.insertions);
            assert forall|e: ElementIDView| #[trigger]
                followers(left.following, e).to_multiset() == followers(
                    right.following,
                    e,
                ).to_multiset() by {
                let f = followers(l.following, e);
                assert(f.push(x).push(y).to_multiset() =~= f.push(y).push(x).to_multiset());
            }
        },
        (OperationView::Insert { key: p, elem: m, .. }, _) => {
            let e = element_named(b.op.field())->Some_0;
            let field = incorporated(s, l.field(e), b);
            let left = l.with_insertion(p, a.actor, m).with_field(e, field);
            let right = l.with_field(e, field).with_insertion(p, a.actor, m);
            assert(l.with_insertion(p, a.actor, m).field(e) == l.field(e));
            assert(left.ops =~= right.ops);
        },
        (_, OperationView::Insert { key: q, elem: n, .. }) => {
            let e = element_named(a.op.field())->Some_0;
            let field = incorporated(s, l.field(e), a);
            let left = l.with_field(e, field).with_insertion(q, b.actor, n);
            let right = l.with_insertion(q, b.actor, n).with_field(e, field);
            assert(l.with_insertion(q, b.actor, n).field(e) == l.field(e));
            assert(left.ops =~= right.ops);
        },
        _ => {
            let e = element_named(a.op.field())->Some_0;
            let d = element_named(b.op.field())->Some_0;
            let left = object_after(object_after(o, s, a)->Some_0, s, b)->Some_0->List_0;
            let right = object_after(object_after(o, s, b)->Some_0, s, a)->Some_0->List_0;
            if e == d {
                concurrent_operations_commute(s, l.field(e), a, b);
            }
            assert(left.ops =~= right.ops);
        },
    }
}

/// Two concurrent operations can come in either order.
proof fn lemma_ops_commute(store: StoreView, s: StatesView, a: OpView, b: OpView)
    requires
        independent(a.op, b.op),
        s.concurrent(a, b),
        a.actor != b.actor,
        after_op(store, s, a) is Some,
        after_op(after_op(store, s, a)->Some_0, s, b) is Some,
    ensures
        after_op(store, s, b) is Some,
        after_op(after_op(store, s, b)->Some_0, s, a) is Some,
        same_document(
            after_op(after_op(store, s, a)->Some_0, s, b)->Some_0,
            after_op(after_op(store, s, b)->Some_0, s, a)->Some_0,
        ),
{
    let i = a.op.object();
    let j = b.op.object();
    let x = after_op(store, s, a)->Some_0;
    if i == j && a.op.makes() {
        let left = after_op(x, s, b)->Some_0;
        assert(left =~= after_op(after_op(store, s, b)->Some_0, s, a)->Some_0);
        lemma_same_reflexive(left);
    } else if i == j {
        lemma_after_op(store, s, a);
        lemma_after_op(store, s, b);
        lemma_after_op(x, s, b);
        lemma_object_commutes(store[i], s, a, b);
        lemma_after_op(after_op(store, s, b)->Some_0, s, a);
        let left = after_op(x, s, b)->Some_0;
        let right = after_op(after_op(store, s, b)->Some_0, s, a)->Some_0;
        assert(left.dom() =~= right.dom());
        lemma_same_reflexive(store);
    } else {
        if !a.op.makes() {
            lemma_after_op(store, s, a);
        }
        if !b.op.makes() {
            lemma_after_op(store, s, b);
            lemma_after_op(x, s, b);
        }
        let y = after_op(store, s, b)->Some_0;
        if !a.op.makes() {
            lemma_after_op(y, s, a);
        }
        let left = after_op(x, s, b)->Some_0;
        let right = after_op(y, s, a)->Some_0;
        assert(left =~= right);
        lemma_same_reflexive(left);
    }
}

proof fn lemma_same_reflexive(a: StoreView)
    ensures
        same_document(a, a),
{
    assert forall|id: ObjectIDView| #[trigger] a.contains_key(id) implies same_object(
        a[id],
        a[id],
    ) by {}
}

proof fn lemma_same_transitive(a: StoreView, b: StoreView, c: StoreView)
    requires
        same_document(a, b),
        same_document(b, c),
    ensures
        same_document(a, c),
{
    assert forall|id: ObjectIDView| #[trigger] a.contains_key(id) implies same_object(
        a[id],
        c[id],
    ) by {
        assert(b.contains_key(id));
        match (a[id], b[id], c[id]) {
            (ObjectView::List(x), ObjectView::List(y), ObjectView::List(z)) => {
                assert forall|p: ElementIDView| #[trigger]
                    followers(x.following, p).to_multiset() == followers(
                        z.following,
                        p,
                    ).to_multiset() by {
                    assert(followers(x.following, p).to_multiset() == followers(
                        y.following,
                        p,
                    ).to_multiset());
                }
            },
            _ => {},
        }
    }
}

/// The document after operations, one after the other, unless one is refused.
pub open spec fn after_ops(store: StoreView, s: StatesView, ops: Seq<OpView>) -> Option<StoreView>
    decreases ops.len(),
{
    if ops.len() == 0 {
        Some(store)
    } else {
        match after_ops(store, s, ops.drop_last()) {
            Some(before) => after_op(before, s, ops.last()),
            None => None,
        }
    }
}

impl ChangeView {
    /// The operations of a change, with the change that they came in.
    pub open spec fn signed_ops(self) -> Seq<OpView> {
        self.ops.map_values(|o: OperationView| OpView { seq: self.seq, actor: self.actor, op: o })
    }
}

/// Applying one list of operations after another.
proof fn lemma_after_both(store: StoreView, s: StatesView, a: Seq<OpView>, b: Seq<OpView>)
    ensures
        after_ops(store, s, a + b) == match after_ops(store, s, a) {
            Some(x) => after_ops(x, s, b),
            None => None,
        },
    decreases b.len(),
{
    if b.len() == 0 {
        assert(a + b =~= a);
    } else {
        assert((a + b).drop_last() =~= a + b.drop_last());
        lemma_after_both(store, s, a, b.drop_last());
    }
}

/// Operations do the same to stores that hold the same document.
proof fn lemma_same_after_ops(a: StoreView, b: StoreView, s: StatesView, ops: Seq<OpView>)
    requires
        same_document(a, b),
        after_ops(a, s, ops) is Some,
    ensures
        after_ops(b, s, ops) is Some,
        same_document(after_ops(a, s, ops)->Some_0, after_ops(b, s, ops)->Some_0),
    decreases ops.len(),
{
    if ops.len() > 0 {
        let rest = ops.drop_last();
        lemma_same_after_ops(a, b, s, rest);
        lemma_same_after(
            after_ops(a, s, rest)->Some_0,
            after_ops(b, s, rest)->Some_0,
            s,
            ops.last(),
        );
    }
}

/// Whether all operations of two lists can come in either order.
spec fn apart(s: StatesView, a: Seq<OpView>, b: Seq<OpView>) -> bool {
    forall|i: int, j: int|
        0 <= i < a.len() && 0 <= j < b.len() ==> {
            &&& independent((#[trigger] a[i]).op, (#[trigger] b[j]).op)
            &&& s.concurrent(a[i], b[j])
            &&& a[i].actor != b[j].actor
        }
}

proof fn lemma_apart_parts(s: StatesView, a: Seq<OpView>, b: Seq<OpView>)
    requires
        apart(s, a, b),
    ensures
        a.len() > 0 ==> apart(s, a.drop_last(), b),
        b.len() > 0 ==> apart(s, a, b.drop_last()) && apart(s, a, seq![b.last()]),
{
    if a.len() > 0 {
        let rest = a.drop_last();
        assert forall|i: int, j: int| 0 <= i < rest.len() && 0 <= j < b.len() implies {
            &&& independent((#[trigger] rest[i]).op, (#[trigger] b[j]).op)
            &&& s.concurrent(rest[i], b[j])
            &&& rest[i].actor != b[j].actor
        } by {
            assert(independent(a[i].op, b[j].op));
        }
    }
    if b.len() > 0 {
        let rest = b.drop_last();
        assert forall|i: int, j: int| 0 <= i < a.len() && 0 <= j < rest.len() implies {
            &&& independent((#[trigger] a[i]).op, (#[trigger] rest[j]).op)
            &&& s.concurrent(a[i], rest[j])
            &&& a[i].actor != rest[j].actor
        } by {
            assert(independent(a[i].op, b[j].op));
        }
        let one = seq![b.last()];
        assert forall|i: int, j: int| 0 <= i < a.len() && 0 <= j < one.len() implies {
            &&& independent((#[trigger] a[i]).op, (#[trigger] one[j]).op)
            &&& s.concurrent(a[i], one[j])
            &&& a[i].actor != one[j].actor
        } by {
            assert(independent(a[i].op, b[b.len() - 1].op));
        }
    }
}

/// Applying one more operation.
proof fn lemma_after_push(store: StoreView, s: StatesView, ops: Seq<OpView>, op: OpView)
    ensures
        after_ops(store, s, ops.push(op)) == match after_ops(store, s, ops) {
            Some(x) => after_op(x, s, op),
            None => None,
        },
{
    assert(ops.push(op).drop_last() =~= ops);
}

/// One operation can come before others that it is apart from.
proof fn lemma_one_first(store: StoreView, s: StatesView, a: Seq<OpView>, b: OpView)
    requires
        apart(s, a, seq![b]),
        after_ops(store, s, a.push(b)) is Some,
    ensures
        after_ops(store, s, seq![b] + a) is Some,
        same_document(
            after_ops(store, s, a.push(b))->Some_0,
            after_ops(store, s, seq![b] + a)->Some_0,
        ),
    decreases a.len(),
{
    lemma_after_push(store, s, a, b);
    if a.len() == 0 {
        assert(seq![b] + a =~= a.push(b));
        lemma_same_reflexive(after_ops(store, s, a.push(b))->Some_0);
    } else {
        let rest = a.drop_last();
        let last = a.last();
        assert(a =~= rest.push(last));
        lemma_after_push(store, s, rest, last);
        lemma_after_push(store, s, rest, b);
        let x = after_ops(store, s, rest)->Some_0;
        assert(independent(a[a.len() - 1].op, seq![b][0].op));
        lemma_ops_commute(x, s, last, b);
        let y = after_op(x, s, b)->Some_0;
        lemma_apart_parts(s, a, seq![b]);
        lemma_one_first(store, s, rest, b);
        let z = after_ops(store, s, seq![b] + rest)->Some_0;
        lemma_same_after(y, z, s, last);
        assert(seq![b] + a =~= (seq![b] + rest).push(last));
        lemma_after_push(store, s, seq![b] + rest, last);
        lemma_same_transitive(
            after_ops(store, s, a.push(b))->Some_0,
            after_op(y, s, last)->Some_0,
            after_op(z, s, last)->Some_0,
        );
    }
}

/// Lists of operations that are apart can come in either order.
proof fn lemma_lists_commute(store: StoreView, s: StatesView, a: Seq<OpView>, b: Seq<OpView>)
    requires
        apart(s, a, b),
        after_ops(store, s, a + b) is Some,
    ensures
        after_ops(store, s, b + a) is Some,
        same_document(
            after_ops(store, s, a + b)->Some_0,
            after_ops(store, s, b + a)->Some_0,
        ),
    decreases b.len(),
{
    if b.len() == 0 {
        assert(a + b =~= a);
        assert(b + a =~= a);
        lemma_same_reflexive(after_ops(store, s, a)->Some_0);
    } else {
        let rest = b.drop_last();
        let last = b.last();
        lemma_apart_parts(s, a, b);
        assert(a + b =~= (a + rest).push(last));
        lemma_after_push(store, s, a + rest, last);
        lemma_lists_commute(store, s, a, rest);
        let x = after_ops(store, s, a + rest)->Some_0;
        let y = after_ops(store, s, rest + a)->Some_0;
        lemma_same_after(x, y, s, last);
        // From the end of `rest` on, the last operation comes before those of `a`.
        lemma_after_both(store, s, rest, a);
        let start = after_ops(store, s, rest)->Some_0;
        lemma_after_push(start, s, a, last);
        lemma_one_first(start, s, a, last);
        lemma_after_both(store, s, rest, seq![last] + a);
        assert(rest + (seq![last] + a) =~= b + a);
        lemma_same_transitive(
            after_op(x, s, last)->Some_0,
            after_op(y, s, last)->Some_0,
            after_ops(start, s, seq![last] + a)->Some_0,
        );
    }
}

/// Whether two states tell the same of the changes that one of them knows.
spec fn agree(s: StatesView, t: StatesView) -> bool {
    forall|a: Seq<char>, n: u32|
        (#[trigger] s.applied(a, n)) is Some ==> t.deps_of(a, n) == s.deps_of(a, n)
}

/// An operation does the same under states that agree.
proof fn lemma_agree_after(store: StoreView, s: StatesView, t: StatesView, op: OpView)
    requires
        agree(s, t),
        s.consistent(),
        s.knows(op),
        concurrent_store(s, store),
    ensures
        after_op(store, s, op) == after_op(store, t, op),
        after_op(store, s, op) is Some ==> concurrent_store(s, after_op(store, s, op)->Some_0),
{
    lemma_applied_concurrent(s, store, op);
    assert forall|field: Seq<OpView>| concurrent_field(s, field) implies #[trigger] incorporated(
        s,
        field,
        op,
    ) == incorporated(t, field, op) by {
        lemma_agree_field(s, t, field, op);
    }
    assert(concurrent_field(s, Seq::empty()));
    if !op.op.makes() {
        lemma_after_op(store, s, op);
        lemma_after_op(store, t, op);
        let id = op.op.object();
        if store.contains_key(id) {
            assert(concurrent_object(s, store[id]));
            match store[id] {
                ObjectView::MapObject(m) => {
                    assert(incorporated(s, m.field(op.op.field()), op) == incorporated(
                        t,
                        m.field(op.op.field()),
                        op,
                    ));
                },
                ObjectView::List(l) => {
                    if let Some(e) = element_named(op.op.field()) {
                        assert(incorporated(s, l.field(e), op) == incorporated(t, l.field(e), op));
                    }
                },
            }
        }
    }
}

proof fn lemma_agree_field(s: StatesView, t: StatesView, field: Seq<OpView>, op: OpView)
    requires
        agree(s, t),
        s.knows(op),
        concurrent_field(s, field),
    ensures
        incorporated(s, field, op) == incorporated(t, field, op),
{
    assert forall|i: int| 0 <= i < field.len() implies s.concurrent(#[trigger] field[i], op)
        == t.concurrent(field[i], op) by {
        assert(s.knows(field[i]));
    }
    if op.op is Increment {
        assert(incorporated(s, field, op) =~= incorporated(t, field, op));
    } else {
        let p = |o: OpView| s.concurrent(o, op);
        let q = |o: OpView| t.concurrent(o, op);
        lemma_filters_agree(field, p, q);
    }
}

proof fn lemma_filters_agree<A>(s: Seq<A>, p: spec_fn(A) -> bool, q: spec_fn(A) -> bool)
    requires
        forall|i: int| 0 <= i < s.len() ==> p(#[trigger] s[i]) == q(s[i]),
    ensures
        s.filter(p) == s.filter(q),
    decreases s.len(),
{
    if s.len() == 0 {
        reveal(Seq::filter);
    } else {
        let rest = s.drop_last();
        assert(s =~= rest.push(s.last()));
        assert(p(s[s.len() - 1]) == q(s[s.len() - 1]));
        assert forall|i: int| 0 <= i < rest.len() implies p(#[trigger] rest[i]) == q(rest[i]) by {
            assert(p(s[i]) == q(s[i]));
        }
        lemma_filters_agree(rest, p, q);
        rest.lemma_filter_push(s.last(), p);
        rest.lemma_filter_push(s.last(), q);
    }
}

/// Operations do the same under states that agree.
proof fn lemma_agree_after_ops(store: StoreView, s: StatesView, t: StatesView, ops: Seq<OpView>)
    requires
        agree(s, t),
        s.consistent(),
        forall|i: int| 0 <= i < ops.len() ==> s.knows(#[trigger] ops[i]),
        concurrent_store(s, store),
    ensures
        after_ops(store, s, ops) == after_ops(store, t, ops),
        after_ops(store, s, ops) is Some ==> concurrent_store(s, after_ops(store, s, ops)->Some_0),
    decreases ops.len(),
{
    if ops.len() > 0 {
        let rest = ops.drop_last();
        assert forall|i: int| 0 <= i < rest.len() implies s.knows(#[trigger] rest[i]) by {
            assert(s.knows(ops[i]));
        }
        assert(s.knows(ops[ops.len() - 1]));
        lemma_agree_after_ops(store, s, t, rest);
        if let Some(x) = after_ops(store, s, rest) {
            lemma_agree_after(x, s, t, ops.last());
        }
    }
}

/// What the operations of a change come to.
proof fn lemma_progress_is_after_ops(
    store: StoreView,
    s: StatesView,
    c: ChangeView,
    ops: Seq<OperationView>,
)
    ensures
        ({
            let signed = ops.map_values(
                |o: OperationView| OpView { seq: c.seq, actor: c.actor, op: o },
            );
            let p = progress(store, s, c, ops);
            after_ops(store, s, signed) == if p.error is None {
                Some(p.store)
            } else {
                None
            }
        }),
    decreases ops.len(),
{
    let sign = |o: OperationView| OpView { seq: c.seq, actor: c.actor, op: o };
    if ops.len() > 0 {
        let rest = ops.drop_last();
        lemma_progress_is_after_ops(store, s, c, rest);
        assert(ops.map_values(sign).drop_last() =~= rest.map_values(sign));
    }
}

/// The document and the states that a list of changes comes to, applied one
/// after the other from the start; unless an operation is refused, or a change
/// is not the next of its actor or needs what was not applied.
pub open spec fn replayed(changes: Seq<ChangeView>) -> Option<(StoreView, StatesView)>
    decreases changes.len(),
{
    if changes.len() == 0 {
        Some((empty_store(), StatesView::none()))
    } else {
        let c = changes.last();
        match replayed(changes.drop_last()) {
            Some((store, s)) => if comes_next(s, c) {
                match after_ops(store, s.extended(c), c.signed_ops()) {
                    Some(after) => Some((after, s.extended(c))),
                    None => None,
                }
            } else {
                None
            },
            None => None,
        }
    }
}

/// Whether two changes were made independently: neither builds on the other.
pub open spec fn changes_concurrent(s: StatesView, c: ChangeView, d: ChangeView) -> bool {
    &&& s.deps_of(c.actor, c.seq).get(d.actor) < d.seq
    &&& s.deps_of(d.actor, d.seq).get(c.actor) < c.seq
}

/// Whether neither of two changes makes an object that the other is on, unless both
/// make it alike.
pub open spec fn changes_independent(c: ChangeView, d: ChangeView) -> bool {
    forall|i: int, j: int|
        0 <= i < c.ops.len() && 0 <= j < d.ops.len() ==> independent(
            #[trigger] c.ops[i],
            #[trigger] d.ops[j],
        )
}

/// One more change.
proof fn lemma_replayed_push(changes: Seq<ChangeView>, c: ChangeView)
    ensures
        replayed(changes.push(c)) == match replayed(changes) {
            Some((store, s)) => if comes_next(s, c) {
                match after_ops(store, s.extended(c), c.signed_ops()) {
                    Some(after) => Some((after, s.extended(c))),
                    None => None,
                }
            } else {
                None
            },
            None => None,
        },
{
    assert(changes.push(c).drop_last() =~= changes);
}

/// What holds of what a list of changes comes to.
proof fn lemma_replayed_sound(changes: Seq<ChangeView>)
    requires
        replayed(changes) is Some,
    ensures
        ({
            let (store, s) = replayed(changes)->Some_0;
            &&& s.consistent()
            &&& s.history == changes
            &&& concurrent_store(s, store)
        }),
    decreases changes.len(),
{
    if changes.len() == 0 {
        assert forall|a: Seq<char>, n: u32| (#[trigger] StatesView::none().applied(
            a,
            n,
        )) is None by {}
        assert(changes =~= Seq::<ChangeView>::empty());
    } else {
        let rest = changes.drop_last();
        let c = changes.last();
        assert(changes =~= rest.push(c));
        lemma_replayed_sound(rest);
        let (store, s) = replayed(rest)->Some_0;
        let t = s.extended(c);
        lemma_extended_consistent(s, c);
        lemma_extended_keeps(s, c);
        lemma_extended_concurrent(s, c, store);
        assert(agree(t, t));
        lemma_signed(t, c);
        lemma_agree_after_ops(store, t, t, c.signed_ops());
    }
}

proof fn lemma_signed(s: StatesView, c: ChangeView)
    requires
        s.applied(c.actor, c.seq) is Some,
    ensures
        forall|i: int| 0 <= i < c.signed_ops().len() ==> s.knows(#[trigger] c.signed_ops()[i]),
{
}

/// States that tell the same of what a clock has seen give it the same
/// dependencies.
proof fn lemma_same_deps(s: StatesView, t: StatesView, clock: ClockView)
    requires
        forall|a: Seq<char>| #[trigger]
            s.deps_of(a, clock.get(a)) == t.deps_of(a, clock.get(a)),
    ensures
        s.all_deps(clock) == t.all_deps(clock),
{
    let x = s.all_deps(clock);
    let y = t.all_deps(clock);
    assert forall|actor: Seq<char>| #[trigger] x.get(actor) == y.get(actor) by {
        lemma_all_deps(s, clock, actor);
        lemma_all_deps(t, clock, actor);
        assert forall|n: u32| s.reaches(clock, actor, n) == t.reaches(clock, actor, n) by {
            if n > clock.get(actor) {
                if s.reaches(clock, actor, n) {
                    let a = choose|a: Seq<char>| n <= #[trigger] s.deps_of(a, clock.get(a)).get(actor);
                    assert(n <= t.deps_of(a, clock.get(a)).get(actor));
                }
                if t.reaches(clock, actor, n) {
                    let a = choose|a: Seq<char>| n <= #[trigger] t.deps_of(a, clock.get(a)).get(actor);
                    assert(s.deps_of(a, clock.get(a)) == t.deps_of(a, clock.get(a)));
                    assert(n <= s.deps_of(a, clock.get(a)).get(actor));
                }
            }
        }
        let m = x.get(actor);
        let n = y.get(actor);
        assert(s.reaches(clock, actor, m) && t.reaches(clock, actor, n));
        assert(t.reaches(clock, actor, m) && s.reaches(clock, actor, n));
    }
    lemma_clock_equal(x, y);
}

/// The same change does the same to states and documents that are the same.
proof fn lemma_replayed_alike(a: Seq<ChangeView>, b: Seq<ChangeView>, c: ChangeView)
    requires
        replayed(a) is Some,
        replayed(b) is Some,
        same_document(replayed(a)->Some_0.0, replayed(b)->Some_0.0),
        replayed(a)->Some_0.1.by_actor == replayed(b)->Some_0.1.by_actor,
        replayed(a.push(c)) is Some,
    ensures
        replayed(b.push(c)) is Some,
        same_document(replayed(a.push(c))->Some_0.0, replayed(b.push(c))->Some_0.0),
        replayed(a.push(c))->Some_0.1.by_actor == replayed(b.push(c))->Some_0.1.by_actor,
{
    let (x, s) = replayed(a)->Some_0;
    let (y, t) = replayed(b)->Some_0;
    lemma_replayed_push(a, c);
    lemma_replayed_push(b, c);
    lemma_replayed_sound(b);
    assert forall|who: Seq<char>| #[trigger] s.log(who) == t.log(who) by {}
    assert forall|who: Seq<char>| #[trigger] c.needs().get(who) <= t.log(who).len() by {
        assert(c.needs().get(who) <= s.log(who).len());
    }
    assert(comes_next(t, c));
    lemma_same_deps(s, t, c.needs());
    let s2 = s.extended(c);
    let t2 = t.extended(c);
    assert(s2.by_actor =~= t2.by_actor);
    lemma_extended_consistent(t, c);
    lemma_extended_keeps(t, c);
    lemma_extended_concurrent(t, c, y);
    lemma_same_after_ops(x, y, s2, c.signed_ops());
    lemma_signed(t2, c);
    assert(agree(t2, s2)) by {
        assert forall|who: Seq<char>, n: u32|
            (#[trigger] t2.applied(who, n)) is Some implies s2.deps_of(who, n) == t2.deps_of(
            who,
            n,
        ) by {
            assert(t2.log(who) == s2.log(who));
        }
    }
    lemma_agree_after_ops(y, t2, s2, c.signed_ops());
}

/// Neighbours of which the second does not need the first are concurrent, and
/// by different actors.
proof fn lemma_neighbours_concurrent(p: Seq<ChangeView>, c: ChangeView, d: ChangeView)
    requires
        replayed(p.push(c).push(d)) is Some,
        d.needs().get(c.actor) < c.seq,
    ensures
        ({
            let s = replayed(p)->Some_0.1;
            let t = s.extended(c).extended(d);
            &&& replayed(p) is Some
            &&& replayed(p.push(c).push(d))->Some_0.1 == t
            &&& changes_concurrent(t, c, d)
            &&& c.actor != d.actor
            &&& comes_next(s, c)
            &&& comes_next(s, d)
            &&& comes_next(s.extended(d), c)
            &&& comes_next(s.extended(c), d)
            &&& t.by_actor == s.extended(d).extended(c).by_actor
        }),
{
    lemma_replayed_push(p, c);
    lemma_replayed_push(p.push(c), d);
    lemma_replayed_sound(p);
    let s = replayed(p)->Some_0.1;
    let sc = s.extended(c);
    let sd = s.extended(d);
    lemma_extended_keeps(s, c);
    lemma_extended_keeps(sc, d);
    assert(d.needs().get(d.actor) >= d.seq - 1);
    assert(c.actor != d.actor);
    assert forall|a: Seq<char>| #[trigger] d.needs().get(a) <= s.log(a).len() by {
        assert(d.needs().get(a) <= sc.log(a).len());
    }
    assert(sc.log(d.actor).len() == s.log(d.actor).len());
    assert(comes_next(s, d));
    lemma_extended_keeps(s, d);
    lemma_extended_keeps(sd, c);
    assert forall|a: Seq<char>| #[trigger] c.needs().get(a) <= sd.log(a).len() by {
        assert(c.needs().get(a) <= s.log(a).len());
        assert(sd.log(a).len() >= s.log(a).len());
    }
    assert(sd.log(c.actor).len() == s.log(c.actor).len());
    assert(comes_next(sd, c));
    // What each builds on does not depend on whether the other came before it.
    assert forall|a: Seq<char>| #[trigger]
        s.deps_of(a, d.needs().get(a)) == sc.deps_of(a, d.needs().get(a)) by {
        assert(d.needs().get(a) <= s.log(a).len());
        lemma_same_entry(s, c, a, d.needs().get(a));
    }
    assert forall|a: Seq<char>| #[trigger]
        s.deps_of(a, c.needs().get(a)) == sd.deps_of(a, c.needs().get(a)) by {
        assert(c.needs().get(a) <= s.log(a).len());
        lemma_same_entry(s, d, a, c.needs().get(a));
    }
    lemma_same_deps(s, sc, d.needs());
    lemma_same_deps(s, sd, c.needs());
    assert(sc.extended(d).by_actor =~= sd.extended(c).by_actor);
    lemma_deps_bounded(s, c.needs(), d.actor);
    lemma_deps_bounded(s, d.needs(), c.actor);
    let t = sc.extended(d);
    assert(sc.applied(c.actor, c.seq) is Some);
    assert(t.deps_of(c.actor, c.seq) == s.all_deps(c.needs()));
    assert(t.deps_of(d.actor, d.seq) == s.all_deps(d.needs()));
}

proof fn lemma_same_entry(s: StatesView, c: ChangeView, a: Seq<char>, n: u32)
    requires
        comes_next(s, c),
        n <= s.log(a).len(),
    ensures
        s.deps_of(a, n) == s.extended(c).deps_of(a, n),
{
    lemma_extended_keeps(s, c);
    if n >= 1 {
        assert(s.applied(a, n) is Some);
    }
}

/// Neighbours that are concurrent and independent can come in either order.
proof fn lemma_neighbours_commute(p: Seq<ChangeView>, c: ChangeView, d: ChangeView)
    requires
        replayed(p.push(c).push(d)) is Some,
        d.needs().get(c.actor) < c.seq,
        changes_independent(c, d),
    ensures
        replayed(p.push(d).push(c)) is Some,
        same_document(
            replayed(p.push(c).push(d))->Some_0.0,
            replayed(p.push(d).push(c))->Some_0.0,
        ),
        replayed(p.push(c).push(d))->Some_0.1.by_actor == replayed(
            p.push(d).push(c),
        )->Some_0.1.by_actor,
{
    lemma_neighbours_concurrent(p, c, d);
    lemma_replayed_sound(p);
    lemma_replayed_push(p, c);
    lemma_replayed_push(p.push(c), d);
    lemma_replayed_push(p, d);
    lemma_replayed_push(p.push(d), c);
    let (store, s) = replayed(p)->Some_0;
    let sc = s.extended(c);
    let sd = s.extended(d);
    let cd = sc.extended(d);
    let dc = sd.extended(c);
    let a = c.signed_ops();
    let b = d.signed_ops();
    lemma_extended_keeps(s, c);
    lemma_extended_keeps(s, d);
    lemma_extended_keeps(sc, d);
    lemma_extended_keeps(sd, c);
    lemma_extended_consistent(s, c);
    lemma_extended_consistent(s, d);
    lemma_extended_consistent(sc, d);
    lemma_extended_consistent(sd, c);
    lemma_extended_concurrent(s, c, store);
    lemma_extended_concurrent(s, d, store);
    lemma_extended_concurrent(sc, d, store);
    lemma_signed(sc, c);
    lemma_signed(sd, d);
    assert(agree(sc, cd));
    lemma_agree_after_ops(store, sc, cd, a);
    lemma_after_both(store, cd, a, b);
    assert(apart(cd, a, b)) by {
        assert forall|i: int, j: int| 0 <= i < a.len() && 0 <= j < b.len() implies {
            &&& independent((#[trigger] a[i]).op, (#[trigger] b[j]).op)
            &&& cd.concurrent(a[i], b[j])
            &&& a[i].actor != b[j].actor
        } by {
            assert(independent(c.ops[i], d.ops[j]));
        }
    }
    lemma_lists_commute(store, cd, a, b);
    lemma_after_both(store, cd, b, a);
    // The same under the states that come of the other order.
    assert forall|who: Seq<char>| #[trigger] dc.log(who) == cd.log(who) by {}
    assert forall|who: Seq<char>, n: u32| #[trigger] dc.applied(who, n) == cd.applied(who, n) by {
        assert(dc.log(who) == cd.log(who));
    }
    assert(agree(dc, cd) && agree(cd, dc));
    assert(agree(sd, dc));
    lemma_agree_after_ops(store, sd, dc, b);
    assert(agree(sd, cd));
    lemma_agree_after_ops(store, sd, cd, b);
    let y = after_ops(store, sd, b)->Some_0;
    lemma_extended_concurrent(sd, c, y);
    lemma_signed(dc, c);
    lemma_agree_after_ops(y, dc, cd, a);
}

/// A prefix of a list of changes that can be replayed can be replayed.
proof fn lemma_replayed_prefix(changes: Seq<ChangeView>, n: int)
    requires
        replayed(changes) is Some,
        0 <= n <= changes.len(),
    ensures
        replayed(changes.take(n)) is Some,
        ({
            let s = replayed(changes.take(n))->Some_0.1;
            let t = replayed(changes)->Some_0.1;
            &&& agree(s, t)
            &&& forall|a: Seq<char>| #[trigger] s.log(a).len() <= t.log(a).len()
        }),
    decreases changes.len(),
{
    if n == changes.len() {
        assert(changes.take(n) =~= changes);
    } else {
        let rest = changes.drop_last();
        assert(rest.take(n) =~= changes.take(n));
        lemma_replayed_prefix(rest, n);
        let s = replayed(changes.take(n))->Some_0.1;
        let r = replayed(rest)->Some_0.1;
        let t = replayed(changes)->Some_0.1;
        lemma_extended_keeps(r, changes.last());
        assert forall|a: Seq<char>, k: u32| (#[trigger] s.applied(a, k)) is Some implies t.deps_of(
            a,
            k,
        ) == s.deps_of(a, k) by {
            assert(s.log(a).len() <= r.log(a).len());
            assert(r.applied(a, k) is Some);
        }
        assert forall|a: Seq<char>| #[trigger] s.log(a).len() <= t.log(a).len() by {
            assert(s.log(a).len() <= r.log(a).len());
            assert(r.log(a).len() <= t.log(a).len());
        }
    }
}

/// A change that no later one needs can come last.
proof fn lemma_to_the_end(p: Seq<ChangeView>, c: ChangeView, later: Seq<ChangeView>)
    requires
        replayed(p.push(c) + later) is Some,
        forall|j: int| 0 <= j < later.len() ==> (#[trigger] later[j]).needs().get(c.actor) < c.seq,
        forall|j: int|
            0 <= j < later.len() && changes_concurrent(
                replayed(p.push(c) + later)->Some_0.1,
                c,
                #[trigger] later[j],
            ) ==> changes_independent(c, later[j]),
    ensures
        replayed((p + later).push(c)) is Some,
        same_document(
            replayed(p.push(c) + later)->Some_0.0,
            replayed((p + later).push(c))->Some_0.0,
        ),
        replayed(p.push(c) + later)->Some_0.1.by_actor == replayed(
            (p + later).push(c),
        )->Some_0.1.by_actor,
    decreases later.len(),
{
    let all = p.push(c) + later;
    if later.len() == 0 {
        assert(all =~= (p + later).push(c));
        lemma_same_reflexive(replayed(all)->Some_0.0);
    } else {
        let rest = later.drop_last();
        let d = later.last();
        let before = p.push(c) + rest;
        assert(all =~= before.push(d));
        lemma_replayed_push(before, d);
        let s = replayed(before)->Some_0.1;
        let t = replayed(all)->Some_0.1;
        lemma_replayed_sound(before);
        lemma_extended_keeps(s, d);
        assert forall|j: int| 0 <= j < rest.len() implies (#[trigger] rest[j]).needs().get(c.actor)
            < c.seq by {
            assert(later[j].needs().get(c.actor) < c.seq);
        }
        assert forall|j: int|
            0 <= j < rest.len() && changes_concurrent(
                s,
                c,
                #[trigger] rest[j],
            ) implies changes_independent(c, rest[j]) by {
            let x = rest[j];
            assert(x == later[j]);
            let k = p.len() as int;
            assert(before[k] == c);
            assert(before[k + 1 + j] == x);
            assert(s.applied(s.history[k].actor, s.history[k].seq) is Some);
            assert(s.applied(s.history[k + 1 + j].actor, s.history[k + 1 + j].seq) is Some);
            assert(changes_concurrent(t, c, later[j]));
        }
        lemma_to_the_end(p, c, rest);
        let moved = (p + rest).push(c);
        lemma_replayed_alike(before, moved, d);
        assert(later[later.len() - 1] == d);
        lemma_neighbours_concurrent(p + rest, c, d);
        let u = replayed(moved.push(d))->Some_0.1;
        assert(u.by_actor == t.by_actor);
        assert(u.log(c.actor) == t.log(c.actor) && u.log(d.actor) == t.log(d.actor));
        assert(changes_concurrent(t, c, later[later.len() - 1]));
        lemma_neighbours_commute(p + rest, c, d);
        let swapped = (p + rest).push(d).push(c);
        assert(swapped =~= (p + later).push(c));
        lemma_same_transitive(
            replayed(all)->Some_0.0,
            replayed(moved.push(d))->Some_0.0,
            replayed(swapped)->Some_0.0,
        );
    }
}

/// Whether changes that were made independently of one another are also
/// independent: none of them makes an object that the other is on, unless both
/// make it alike.
pub open spec fn compatible(s: StatesView, changes: Seq<ChangeView>) -> bool {
    forall|i: int, j: int|
        0 <= i < j < changes.len() && changes_concurrent(
            s,
            #[trigger] changes[i],
            #[trigger] changes[j],
        ) ==> changes_independent(changes[i], changes[j])
}

/// Whether two lists hold the same changes.
pub open spec fn same_changes(a: Seq<ChangeView>, b: Seq<ChangeView>) -> bool {
    forall|c: ChangeView| #[trigger] a.contains(c) <==> b.contains(c)
}

proof fn lemma_same_symmetric(a: StoreView, b: StoreView)
    requires
        same_document(a, b),
    ensures
        same_document(b, a),
{
    assert forall|id: ObjectIDView| #[trigger] b.contains_key(id) implies same_object(
        b[id],
        a[id],
    ) by {
        assert(a.contains_key(id));
        match (a[id], b[id]) {
            (ObjectView::List(x), ObjectView::List(y)) => {
                assert forall|p: ElementIDView| #[trigger]
                    followers(y.following, p).to_multiset() == followers(
                        x.following,
                        p,
                    ).to_multiset() by {
                    assert(followers(x.following, p).to_multiset() == followers(
                        y.following,
                        p,
                    ).to_multiset());
                }
            },
            _ => {},
        }
    }
}

/// The last change is needed by none of the others.
proof fn lemma_last_is_not_needed(h: Seq<ChangeView>, d: ChangeView)
    requires
        replayed(h) is Some,
        h.len() > 0,
        h.contains(d),
        !(d.actor == h.last().actor && d.seq == h.last().seq),
    ensures
        d.needs().get(h.last().actor) < h.last().seq,
{
    let c = h.last();
    let rest = h.drop_last();
    assert(h =~= rest.push(c));
    lemma_replayed_push(rest, c);
    let s = replayed(rest)->Some_0.1;
    let i = choose|i: int| 0 <= i < h.len() && h[i] == d;
    assert(i < rest.len());
    lemma_replayed_prefix(rest, i + 1);
    lemma_replayed_prefix(rest, i);
    assert(rest.take(i + 1) =~= rest.take(i).push(d));
    lemma_replayed_push(rest.take(i), d);
    let r = replayed(rest.take(i))->Some_0.1;
    assert(d.needs().get(c.actor) <= r.log(c.actor).len());
    assert(r.log(c.actor).len() <= s.log(c.actor).len());
}

/// Two lists with the same changes, without one of them.
proof fn lemma_without(g: Seq<ChangeView>, h: Seq<ChangeView>, k: int)
    requires
        each_once(g),
        each_once(h),
        same_changes(g, h),
        h.len() > 0,
        0 <= k < g.len(),
        g[k] == h.last(),
    ensures
        ({
            let others = g.take(k) + g.skip(k + 1);
            &&& each_once(others)
            &&& each_once(h.drop_last())
            &&& same_changes(others, h.drop_last())
        }),
{
    let others = g.take(k) + g.skip(k + 1);
    let rest = h.drop_last();
    let c = h.last();
    let place = |i: int|
        if i < k {
            i
        } else {
            i + 1
        };
    assert forall|i: int| 0 <= i < others.len() implies #[trigger] others[i] == g[place(i)] by {}
    assert forall|i: int, j: int| 0 <= i < j < others.len() implies !((
    #[trigger] others[i]).actor == (#[trigger] others[j]).actor && others[i].seq
        == others[j].seq) by {
        assert(others[i] == g[place(i)] && others[j] == g[place(j)]);
    }
    assert forall|i: int, j: int| 0 <= i < j < rest.len() implies !((#[trigger] rest[i]).actor == (
    #[trigger] rest[j]).actor && rest[i].seq == rest[j].seq) by {
        assert(rest[i] == h[i] && rest[j] == h[j]);
    }
    assert forall|x: ChangeView| #[trigger] others.contains(x) <==> rest.contains(x) by {
        if others.contains(x) {
            let i = choose|i: int| 0 <= i < others.len() && others[i] == x;
            assert(g[place(i)] == x);
            assert(g.contains(x));
            assert(h.contains(x));
            let j = choose|j: int| 0 <= j < h.len() && h[j] == x;
            assert(x != c) by {
                if i < k {
                    assert(!(g[i].actor == g[k].actor && g[i].seq == g[k].seq));
                } else {
                    assert(!(g[k].actor == g[i + 1].actor && g[k].seq == g[i + 1].seq));
                }
            }
            assert(rest[j] == x);
        }
        if rest.contains(x) {
            let j = choose|j: int| 0 <= j < rest.len() && rest[j] == x;
            assert(h[j] == x);
            assert(h[h.len() - 1] == c);
            assert(!(h[j].actor == h[h.len() - 1].actor && h[j].seq == h[h.len() - 1].seq));
            assert(h.contains(x));
            assert(g.contains(x));
            let i = choose|i: int| 0 <= i < g.len() && g[i] == x;
            if i < k {
                assert(others[i] == x);
            } else {
                assert(i > k);
                assert(others[i - 1] == x);
            }
        }
    }
}

/// Changes that are compatible are so without the one that was moved to their
/// end.
proof fn lemma_compatible_without(g: Seq<ChangeView>, k: int)
    requires
        0 <= k < g.len(),
        replayed(g) is Some,
        compatible(replayed(g)->Some_0.1, g),
        replayed((g.take(k) + g.skip(k + 1)).push(g[k])) is Some,
        replayed((g.take(k) + g.skip(k + 1)).push(g[k]))->Some_0.1.by_actor == replayed(
            g,
        )->Some_0.1.by_actor,
    ensures
        replayed(g.take(k) + g.skip(k + 1)) is Some,
        compatible(
            replayed(g.take(k) + g.skip(k + 1))->Some_0.1,
            g.take(k) + g.skip(k + 1),
        ),
{
    let others = g.take(k) + g.skip(k + 1);
    let c = g[k];
    lemma_replayed_push(others, c);
    lemma_replayed_sound(others);
    let s = replayed(others)->Some_0.1;
    let t = s.extended(c);
    let u = replayed(g)->Some_0.1;
    lemma_extended_keeps(s, c);
    let place = |i: int|
        if i < k {
            i
        } else {
            i + 1
        };
    assert forall|i: int, j: int|
        0 <= i < j < others.len() && changes_concurrent(
            s,
            #[trigger] others[i],
            #[trigger] others[j],
        ) implies changes_independent(others[i], others[j]) by {
        let x = others[i];
        let y = others[j];
        assert(s.applied(s.history[i].actor, s.history[i].seq) is Some);
        assert(s.applied(s.history[j].actor, s.history[j].seq) is Some);
        assert(u.log(x.actor) == t.log(x.actor) && u.log(y.actor) == t.log(y.actor));
        assert(g[place(i)] == x && g[place(j)] == y);
        assert(changes_concurrent(u, g[place(i)], g[place(j)]));
    }
}

/// The order in which changes are replayed does not matter, as long as each
/// comes after what it needs.
proof fn lemma_replays_converge(g: Seq<ChangeView>, h: Seq<ChangeView>)
    requires
        replayed(g) is Some,
        replayed(h) is Some,
        each_once(g),
        each_once(h),
        same_changes(g, h),
        compatible(replayed(g)->Some_0.1, g),
    ensures
        same_document(replayed(g)->Some_0.0, replayed(h)->Some_0.0),
        replayed(g)->Some_0.1.by_actor == replayed(h)->Some_0.1.by_actor,
    decreases h.len(),
{
    if h.len() == 0 {
        assert(g.len() == 0) by {
            if g.len() > 0 {
                assert(g.contains(g[0]));
                assert(h.contains(g[0]));
            }
        }
        lemma_same_reflexive(empty_store());
    } else {
        let c = h.last();
        assert(h[h.len() - 1] == c);
        assert(h.contains(c));
        assert(g.contains(c));
        let k = choose|k: int| 0 <= k < g.len() && g[k] == c;
        let p = g.take(k);
        let later = g.skip(k + 1);
        assert(g =~= p.push(c) + later);
        assert forall|j: int| 0 <= j < later.len() implies (#[trigger] later[j]).needs().get(
            c.actor,
        ) < c.seq by {
            let d = later[j];
            assert(g[k + 1 + j] == d);
            assert(g.contains(d));
            assert(h.contains(d));
            lemma_last_is_not_needed(h, d);
        }
        assert forall|j: int|
            0 <= j < later.len() && changes_concurrent(
                replayed(p.push(c) + later)->Some_0.1,
                c,
                #[trigger] later[j],
            ) implies changes_independent(c, later[j]) by {
            assert(g[k] == c && g[k + 1 + j] == later[j]);
        }
        lemma_to_the_end(p, c, later);
        let others = p + later;
        lemma_replayed_push(others, c);
        let hs = h.drop_last();
        assert(h =~= hs.push(c));
        lemma_replayed_push(hs, c);
        lemma_without(g, h, k);
        lemma_compatible_without(g, k);
        lemma_replays_converge(others, hs);
        lemma_same_symmetric(replayed(others)->Some_0.0, replayed(hs)->Some_0.0);
        lemma_replayed_alike(others, hs, c);
        lemma_same_transitive(
            replayed(g)->Some_0.0,
            replayed(others.push(c))->Some_0.0,
            replayed(h)->Some_0.0,
        );
    }
}

impl OpSetView {
    /// The document is what the history comes to when it is replayed. That is so
    /// unless an operation was refused.
    pub open spec fn replays(self) -> bool {
        replayed(self.states.history) == Some((self.store, self.states))
    }
}

proof fn lemma_apply_ready_replays(m: OpSetView, c: ChangeView, undoable: bool)
    requires
        m.delivered(),
        m.replays(),
        c.seq >= 1,
        m.ready(c),
        m.apply_ready(c, undoable).1 is Ok,
    ensures
        m.apply_ready(c, undoable).0.replays(),
{
    if let Ok(Some(t)) = m.states.add_change(c) {
        lemma_new_change(m, c);
        lemma_progress_is_after_ops(m.store, t, c, c.ops);
        lemma_replayed_push(m.states.history, c);
    }
}

proof fn lemma_run_replays(m: OpSetView)
    requires
        m.delivered(),
        m.replays(),
        m.run().1 is Ok,
    ensures
        m.run().0.replays(),
    decreases m.queue.len(),
{
    if let Some(i) = m.next_ready() {
        lemma_taken_out(m, i);
        let w = m.without(i);
        let (c, undoable) = m.queue[i];
        lemma_apply_ready_delivered(w, c, undoable);
        lemma_apply_ready_replays(w, c, undoable);
        lemma_run_replays(w.apply_ready(c, undoable).0);
    }
}

/// Before any change came, the document is what an empty history comes to.
pub proof fn empty_history_makes_the_empty_document()
    ensures
        OpSetView::init().replays(),
{
}

/// As long as nothing is refused, the document is what the history comes to.
pub proof fn document_is_made_by_its_history(m: OpSetView, c: ChangeView, undoable: bool)
    requires
        m.delivered(),
        m.replays(),
        c.seq >= 1,
        m.receive(c, undoable).1 is Ok,
    ensures
        m.receive(c, undoable).0.replays(),
{
    lemma_queued_delivered(m, c, undoable);
    lemma_run_replays(m.queued(c, undoable));
}

/// Replicas that have applied the same changes hold the same document, in
/// whatever order the changes came.
///
/// This is said of changes of which none makes an object that a concurrent one
/// is on, unless both make it alike: an object that is made again starts anew.
pub proof fn replicas_converge(m: OpSetView, n: OpSetView)
    requires
        m.delivered(),
        n.delivered(),
        m.replays(),
        n.replays(),
        same_changes(m.states.history, n.states.history),
        compatible(m.states, m.states.history),
    ensures
        same_document(m.store, n.store),
        m.complete() && n.complete() ==> forall|a: Seq<char>| #[trigger]
            m.clock.get(a) == n.clock.get(a),
{
    lemma_replays_converge(m.states.history, n.states.history);
    if m.complete() && n.complete() {
        assert forall|a: Seq<char>| #[trigger] m.clock.get(a) == n.clock.get(a) by {
            assert(m.states.log(a) == n.states.log(a));
            assert(n.clock.get(a) == n.states.log(a).len());
        }
    }
}

/// Stores that hold the same document hold the same operations in each field.
/// Their lists have the same order and are made by the same steps, and so are
/// the fields of their maps.
pub proof fn same_documents_show_the_same(
    a: StoreView,
    b: StoreView,
    id: ObjectIDView,
    key: Seq<char>,
)
    requires
        same_document(a, b),
        store_wf(a),
    ensures
        field_of(a, id, key) == field_of(b, id, key),
        a.contains_key(id) <==> b.contains_key(id),
        a.contains_key(id) && a[id] is List ==> b[id] is List && a[id]->List_0.order()
            == b[id]->List_0.order() && a[id].diffs() == b[id].diffs(),
        a.contains_key(id) && a[id] is MapObject ==> b[id] is MapObject
            && a[id]->MapObject_0.field_diff(key) == b[id]->MapObject_0.field_diff(key),
{
    assert(a.dom().contains(id) <==> b.dom().contains(id));
    if a.contains_key(id) {
        assert(same_object(a[id], b[id]));
        assert(a[id].wf());
        match (a[id], b[id]) {
            (ObjectView::List(l), ObjectView::List(k)) => {
                grown_list_has_order(l.ops.dom(), l.following);
                order_does_not_depend_on_arrival(l.ops.dom(), l.following, k.following);
                let p = |e: ElementIDView| l.field(e).len() > 0;
                let q = |e: ElementIDView| k.field(e).len() > 0;
                assert(p =~= q);
                let shown = l.order().reverse().filter(p);
                let f = |i: int, e: ElementIDView| l.element_diff(e, i);
                let g = |i: int, e: ElementIDView| k.element_diff(e, i);
                assert forall|i: int, e: ElementIDView| l.element_diff(e, i) == k.element_diff(
                    e,
                    i,
                ) by {}
                assert(shown.map(f) =~= shown.map(g));
            },
            _ => {},
        }
    }
}

} // verus!

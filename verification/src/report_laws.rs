//! What holds of the steps that are reported to a client.

use vstd::prelude::*;

use crate::delivery::{counter_told, lemma_told_front, redundant, simplified, told};
use crate::diff::{ActionView, DiffView};
use crate::ids::ObjectIDView;
use crate::objects::{
    count_in, diffs_backwards, document_diffs, document_visits, lemma_visit_shrinks, links_in,
    not_in, visits, StoreView,
};
use crate::seqs::lemma_filter_all;

verus! {

/// Whether a step does more than to report the largest counter of a list.
pub open spec fn is_essential(d: DiffView) -> bool {
    !(d.action is MaxElem)
}

/// Leaving redundant steps out keeps all other steps, in their order.
pub proof fn simplifying_keeps_essential_steps(diffs: Seq<DiffView>)
    ensures
        simplified(diffs).filter(|d: DiffView| is_essential(d)) == diffs.filter(
            |d: DiffView| is_essential(d),
        ),
    decreases diffs.len(),
{
    let p = |d: DiffView| is_essential(d);
    if diffs.len() == 0 {
        assert(diffs =~= Seq::<DiffView>::empty());
    } else {
        let later = diffs.drop_first();
        simplifying_keeps_essential_steps(later);
        assert(diffs =~= seq![diffs[0]] + later);
        Seq::filter_distributes_over_add(seq![diffs[0]], later, p);
        if redundant(diffs[0], later) {
            let one = seq![diffs[0]];
            assert forall|i: int| 0 <= i < one.len() implies !p(#[trigger] one[i]) by {}
            one.lemma_all_neg_filter_empty(p);
            assert(one.filter(p) + later.filter(p) =~= later.filter(p));
        } else {
            Seq::filter_distributes_over_add(seq![diffs[0]], simplified(later), p);
        }
    }
}

/// Leaving redundant steps out keeps the largest counter that is told of each
/// list.
pub proof fn simplifying_keeps_counters(diffs: Seq<DiffView>, id: ObjectIDView, n: u32)
    requires
        n > 0,
    ensures
        told(simplified(diffs), id, n) <==> told(diffs, id, n),
    decreases diffs.len(),
{
    if diffs.len() > 0 {
        let later = diffs.drop_first();
        let first = diffs[0];
        simplifying_keeps_counters(later, id, n);
        assert(diffs =~= seq![first] + later);
        lemma_told_front(first, later, id, n);
        lemma_told_front(first, simplified(later), id, n);
        if redundant(first, later) {
            if counter_told(first, id) >= n {
                let m = first.action->MaxElem_1;
                let j = choose|j: int|
                    0 <= j < later.len() && counter_told(#[trigger] later[j], id) >= m;
                assert(counter_told(later[j], id) >= n);
            }
        }
    }
}

/// When redundant steps were left out, none is left.
pub proof fn simplifying_twice_changes_nothing(diffs: Seq<DiffView>)
    ensures
        simplified(simplified(diffs)) == simplified(diffs),
    decreases diffs.len(),
{
    if diffs.len() > 0 {
        let later = diffs.drop_first();
        let first = diffs[0];
        simplifying_twice_changes_nothing(later);
        if !redundant(first, later) {
            let s = simplified(diffs);
            assert(s.drop_first() =~= simplified(later));
            if let ActionView::MaxElem(id, n, _) = first.action {
                if n > 0 {
                    simplifying_keeps_counters(later, id, n);
                }
            }
            assert(!redundant(s[0], s.drop_first()));
        }
    }
}

/// Whether an object of a store refers to another object.
pub open spec fn refers(store: StoreView, from: ObjectIDView, to: ObjectIDView) -> bool {
    store.contains_key(from) && links_in(store[from].diffs()).contains(to)
}

/// Whether an object is reached from the root in `n` steps, each of them from an
/// object to one that it refers to.
pub open spec fn reached_in(store: StoreView, id: ObjectIDView, n: nat) -> bool
    decreases n,
{
    if n == 0 {
        id is Root
    } else {
        exists|from: ObjectIDView|
            reached_in(store, from, (n - 1) as nat) && #[trigger] refers(store, from, id)
    }
}

/// Whether an object is reached from the root.
pub open spec fn reached(store: StoreView, id: ObjectIDView) -> bool {
    exists|n: nat| reached_in(store, id, n)
}

proof fn lemma_visits_reached(store: StoreView, stack: Seq<ObjectIDView>, seen: Set<ObjectIDView>)
    requires
        store.dom().finite(),
        forall|i: int| 0 <= i < stack.len() ==> reached(store, #[trigger] stack[i]),
    ensures
        forall|i: int|
            0 <= i < visits(store, stack, seen).len() ==> {
                &&& store.contains_key(#[trigger] visits(store, stack, seen)[i])
                &&& reached(store, visits(store, stack, seen)[i])
            },
    decreases store.dom().difference(seen).len(), count_in(stack, seen), stack.len(),
{
    if stack.len() == 0 {
        assert(visits(store, stack, seen).len() == 0);
    } else {
        let id = stack.last();
        let rest = stack.drop_last();
        assert(reached(store, stack[stack.len() - 1]));
        let links = links_in(store[id].diffs());
        lemma_visit_shrinks(store, stack, seen, links);
        if store.contains_key(id) {
            let next = rest + not_in(links, seen);
            assert forall|i: int| 0 <= i < next.len() implies reached(store, #[trigger] next[i]) by {
                if i < rest.len() {
                    assert(next[i] == stack[i]);
                } else {
                    let x = next[i];
                    assert(not_in(links, seen)[i - rest.len()] == x);
                    assert(not_in(links, seen).contains(x));
                    links.lemma_filter_contains_rev(|id: ObjectIDView| !seen.contains(id), x);
                    let n = choose|n: nat| reached_in(store, id, n);
                    assert(refers(store, id, x));
                    assert(reached_in(store, id, (n + 1 - 1) as nat));
                    assert(reached_in(store, x, n + 1));
                }
            }
            lemma_visits_reached(store, next, seen.insert(id));
            let all = visits(store, stack, seen);
            let tail = visits(store, next, seen.insert(id));
            assert(all == seq![id] + tail);
            assert forall|i: int| 0 <= i < all.len() implies store.contains_key(#[trigger] all[i])
                && reached(store, all[i]) by {
                if i > 0 {
                    assert(all[i] == tail[i - 1]);
                }
            }
        } else {
            assert forall|i: int| 0 <= i < rest.len() implies reached(store, #[trigger] rest[i]) by {
                assert(rest[i] == stack[i]);
            }
            lemma_visits_reached(store, rest, seen);
            assert(visits(store, stack, seen) == visits(store, rest, seen));
        }
    }
}

proof fn lemma_visits_all(store: StoreView, stack: Seq<ObjectIDView>, seen: Set<ObjectIDView>)
    requires
        store.dom().finite(),
    ensures
        ({
            let all = visits(store, stack, seen);
            &&& forall|i: int|
                0 <= i < stack.len() && store.contains_key(#[trigger] stack[i]) ==> all.contains(
                    stack[i],
                )
            &&& forall|from: ObjectIDView, to: ObjectIDView|
                all.contains(from) && store.contains_key(to) && #[trigger] refers(store, from, to)
                    ==> all.contains(to) || seen.contains(to)
        }),
    decreases store.dom().difference(seen).len(), count_in(stack, seen), stack.len(),
{
    let all = visits(store, stack, seen);
    if stack.len() > 0 {
        let id = stack.last();
        let rest = stack.drop_last();
        let links = links_in(store[id].diffs());
        lemma_visit_shrinks(store, stack, seen, links);
        if store.contains_key(id) {
            let fresh = not_in(links, seen);
            let next = rest + fresh;
            let now = seen.insert(id);
            lemma_visits_all(store, next, now);
            let tail = visits(store, next, now);
            assert(all == seq![id] + tail);
            assert forall|x: ObjectIDView| #[trigger] all.contains(x) <==> x == id || tail.contains(
                x,
            ) by {
                if tail.contains(x) {
                    let i = choose|i: int| 0 <= i < tail.len() && tail[i] == x;
                    assert(all[i + 1] == x);
                }
                if x == id {
                    assert(all[0] == x);
                }
                if all.contains(x) {
                    let i = choose|i: int| 0 <= i < all.len() && all[i] == x;
                    if i > 0 {
                        assert(tail[i - 1] == x);
                    }
                }
            }
            assert forall|i: int|
                0 <= i < stack.len() && store.contains_key(
                    #[trigger] stack[i],
                ) implies all.contains(stack[i]) by {
                if i < rest.len() {
                    assert(next[i] == stack[i]);
                    assert(tail.contains(next[i]));
                }
            }
            assert forall|from: ObjectIDView, to: ObjectIDView|
                all.contains(from) && store.contains_key(to) && #[trigger] refers(
                    store,
                    from,
                    to,
                ) implies all.contains(to) || seen.contains(to) by {
                if from == id {
                    if !seen.contains(to) {
                        let k = choose|k: int| 0 <= k < links.len() && links[k] == to;
                        links.lemma_filter_contains(|x: ObjectIDView| !seen.contains(x), k);
                        assert(fresh.contains(to));
                        let j = choose|j: int| 0 <= j < fresh.len() && fresh[j] == to;
                        assert(next[rest.len() + j] == to);
                        assert(tail.contains(next[rest.len() + j]));
                    }
                } else {
                    assert(tail.contains(from));
                }
            }
        } else {
            lemma_visits_all(store, rest, seen);
            assert forall|i: int|
                0 <= i < stack.len() && store.contains_key(
                    #[trigger] stack[i],
                ) implies all.contains(stack[i]) by {
                assert(rest[i] == stack[i]);
            }
        }
    }
}

/// The steps that make a document make the objects that are reached from the
/// root, and no others.
pub proof fn document_makes_what_is_reached(store: StoreView, id: ObjectIDView)
    requires
        store.dom().finite(),
    ensures
        document_visits(store).contains(id) <==> store.contains_key(id) && reached(store, id),
{
    let start = seq![ObjectIDView::Root];
    let none = Set::<ObjectIDView>::empty();
    let all = document_visits(store);
    assert(reached_in(store, ObjectIDView::Root, 0));
    assert forall|i: int| 0 <= i < start.len() implies reached(store, #[trigger] start[i]) by {}
    lemma_visits_reached(store, start, none);
    lemma_visits_all(store, start, none);
    if all.contains(id) {
        let i = choose|i: int| 0 <= i < all.len() && all[i] == id;
        assert(reached(store, visits(store, start, none)[i]));
    }
    if store.contains_key(id) && reached(store, id) {
        let n = choose|n: nat| reached_in(store, id, n);
        assert(start[0] is Root);
        lemma_reached_is_made(store, id, n);
    }
}

proof fn lemma_reached_is_made(store: StoreView, id: ObjectIDView, n: nat)
    requires
        store.dom().finite(),
        store.contains_key(id),
        reached_in(store, id, n),
    ensures
        document_visits(store).contains(id),
    decreases n,
{
    let start = seq![ObjectIDView::Root];
    lemma_visits_all(store, start, Set::empty());
    if n == 0 {
        assert(start[0] == id);
    } else {
        let from = choose|from: ObjectIDView|
            reached_in(store, from, (n - 1) as nat) && #[trigger] refers(store, from, id);
        lemma_reached_is_made(store, from, (n - 1) as nat);
    }
}

/// The steps of the root come last.
pub proof fn root_is_made_last(store: StoreView)
    requires
        store.dom().finite(),
        store.contains_key(ObjectIDView::Root),
    ensures
        ({
            let steps = document_diffs(store);
            let root = store[ObjectIDView::Root].diffs();
            &&& steps.len() >= root.len()
            &&& steps.skip(steps.len() - root.len()) == root
        }),
{
    let all = document_visits(store);
    let root = store[ObjectIDView::Root].diffs();
    let steps = document_diffs(store);
    let start = seq![ObjectIDView::Root];
    assert(start.last() is Root);
    assert(all.len() > 0 && all[0] is Root);
    let before = diffs_backwards(store, all.drop_first());
    assert(steps == before + root);
    assert(steps.skip(steps.len() - root.len()) =~= root);
}

/// Whether the objects that are reached from the root form a tree: none refers to
/// the root, none refers to another twice, and no two refer to the same.
pub open spec fn links_form_a_tree(store: StoreView) -> bool {
    &&& forall|from: ObjectIDView| #[trigger]
        reached(store, from) ==> !refers(store, from, ObjectIDView::Root) && (store.contains_key(
            from,
        ) ==> links_in(store[from].diffs()).no_duplicates())
    &&& forall|a: ObjectIDView, b: ObjectIDView, to: ObjectIDView|
        reached(store, a) && reached(store, b) && #[trigger] refers(store, a, to)
            && #[trigger] refers(store, b, to) ==> a == b
}

/// Whether an object is the root, or one of `seen` refers to it.
spec fn referred_to(store: StoreView, seen: Set<ObjectIDView>, x: ObjectIDView) -> bool {
    x is Root || exists|from: ObjectIDView|
        seen.contains(from) && reached(store, from) && #[trigger] refers(store, from, x)
}

/// A walk through a tree on its way.
spec fn climbing(store: StoreView, stack: Seq<ObjectIDView>, seen: Set<ObjectIDView>) -> bool {
    &&& stack.no_duplicates()
    &&& forall|x: ObjectIDView| #[trigger]
        stack.contains(x) ==> reached(store, x) && !seen.contains(x)
    &&& forall|x: ObjectIDView, from: ObjectIDView|
        stack.contains(x) && reached(store, from) && #[trigger] refers(store, from, x)
            ==> seen.contains(from)
    &&& forall|x: ObjectIDView| #[trigger] seen.contains(x) ==> referred_to(store, seen, x)
}

/// What holds of the rest of a walk through a tree: it goes to no object twice, and
/// to an object only after the one that refers to it.
spec fn climbed(store: StoreView, all: Seq<ObjectIDView>, seen: Set<ObjectIDView>) -> bool {
    &&& all.no_duplicates()
    &&& forall|i: int| 0 <= i < all.len() ==> !seen.contains(#[trigger] all[i])
    &&& forall|i: int, from: ObjectIDView|
        0 <= i < all.len() && reached(store, from) && #[trigger] refers(store, from, all[i])
            ==> seen.contains(from) || all.take(i).contains(from)
}

/// What an object refers to that is reached is reached.
proof fn lemma_reached_next(store: StoreView, from: ObjectIDView, to: ObjectIDView)
    requires
        reached(store, from),
        refers(store, from, to),
    ensures
        reached(store, to),
{
    let n = choose|n: nat| reached_in(store, from, n);
    assert(reached_in(store, from, (n + 1 - 1) as nat));
    assert(reached_in(store, to, n + 1));
}

/// An object that is reached is the root, or one refers to it that is reached.
proof fn lemma_reached_from(store: StoreView, id: ObjectIDView)
    requires
        reached(store, id),
    ensures
        id is Root || exists|from: ObjectIDView|
            reached(store, from) && #[trigger] refers(store, from, id),
{
    let n = choose|n: nat| reached_in(store, id, n);
    if n > 0 {
        let from = choose|from: ObjectIDView|
            reached_in(store, from, (n - 1) as nat) && #[trigger] refers(store, from, id);
        assert(reached(store, from));
    }
}

/// What the next object of a walk through a tree refers to was not come upon
/// before.
proof fn lemma_fresh_links(store: StoreView, stack: Seq<ObjectIDView>, seen: Set<ObjectIDView>)
    requires
        links_form_a_tree(store),
        climbing(store, stack, seen),
        stack.len() > 0,
        store.contains_key(stack.last()),
    ensures
        ({
            let links = links_in(store[stack.last()].diffs());
            &&& not_in(links, seen) == links
            &&& links.no_duplicates()
            &&& forall|x: ObjectIDView| #[trigger]
                links.contains(x) ==> refers(store, stack.last(), x) && reached(store, x)
                    && !seen.contains(x) && !stack.contains(x)
        }),
{
    let id = stack.last();
    let links = links_in(store[id].diffs());
    let p = |x: ObjectIDView| !seen.contains(x);
    assert(stack.contains(id));
    assert(reached(store, id));
    assert forall|x: ObjectIDView| #[trigger] links.contains(x) implies refers(store, id, x)
        && reached(store, x) && !seen.contains(x) && !stack.contains(x) by {
        assert(refers(store, id, x));
        lemma_reached_next(store, id, x);
        if seen.contains(x) {
            assert(referred_to(store, seen, x));
            let from = choose|from: ObjectIDView|
                seen.contains(from) && reached(store, from) && #[trigger] refers(store, from, x);
            assert(from == id);
        }
    }
    assert forall|i: int| 0 <= i < links.len() implies p(#[trigger] links[i]) by {
        assert(links.contains(links[i]));
    }
    lemma_filter_all(links, p);
}

/// A stack with its last entry replaced by others that are not in it.
proof fn lemma_replace_last(stack: Seq<ObjectIDView>, links: Seq<ObjectIDView>)
    requires
        stack.len() > 0,
        stack.no_duplicates(),
        links.no_duplicates(),
        forall|x: ObjectIDView| #[trigger] links.contains(x) ==> !stack.contains(x),
    ensures
        (stack.drop_last() + links).no_duplicates(),
        forall|x: ObjectIDView| #[trigger]
            (stack.drop_last() + links).contains(x) ==> links.contains(x) || (stack.contains(x) && x
                != stack.last()),
{
    let rest = stack.drop_last();
    let next = rest + links;
    let n = rest.len() as int;
    assert forall|x: ObjectIDView| #[trigger] next.contains(x) implies links.contains(x) || (
    stack.contains(x) && x != stack.last()) by {
        let i = choose|i: int| 0 <= i < next.len() && next[i] == x;
        if i < n {
            assert(stack[i] == x);
            assert(stack[stack.len() - 1] == stack.last());
        } else {
            assert(links[i - n] == x);
        }
    }
    assert forall|i: int, j: int|
        0 <= i < next.len() && 0 <= j < next.len() && i != j implies next[i] != next[j] by {
        if i < n && j < n {
            assert(stack[i] != stack[j]);
        } else if i >= n && j >= n {
            assert(links[i - n] != links[j - n]);
        } else if i < n {
            assert(stack.contains(stack[i]));
            assert(links.contains(links[j - n]));
        } else {
            assert(stack.contains(stack[j]));
            assert(links.contains(links[i - n]));
        }
    }
}

proof fn lemma_climb_on(store: StoreView, stack: Seq<ObjectIDView>, seen: Set<ObjectIDView>)
    requires
        links_form_a_tree(store),
        climbing(store, stack, seen),
        stack.len() > 0,
        store.contains_key(stack.last()),
    ensures
        climbing(
            store,
            stack.drop_last() + not_in(links_in(store[stack.last()].diffs()), seen),
            seen.insert(stack.last()),
        ),
{
    let id = stack.last();
    let links = links_in(store[id].diffs());
    let next = stack.drop_last() + links;
    let now = seen.insert(id);
    assert(stack.contains(id));
    lemma_fresh_links(store, stack, seen);
    lemma_replace_last(stack, links);
    assert forall|x: ObjectIDView| #[trigger] next.contains(x) implies reached(store, x)
        && !now.contains(x) by {}
    assert forall|x: ObjectIDView, from: ObjectIDView|
        next.contains(x) && reached(store, from) && #[trigger] refers(
            store,
            from,
            x,
        ) implies now.contains(from) by {
        if links.contains(x) {
            assert(refers(store, id, x));
        }
    }
    assert forall|x: ObjectIDView| #[trigger] now.contains(x) implies referred_to(store, now, x) by {
        if x == id {
            lemma_reached_from(store, id);
            if !(id is Root) {
                let from = choose|from: ObjectIDView|
                    reached(store, from) && #[trigger] refers(store, from, id);
                assert(now.contains(from));
            }
        } else {
            assert(referred_to(store, seen, x));
            if !(x is Root) {
                let from = choose|from: ObjectIDView|
                    seen.contains(from) && reached(store, from) && #[trigger] refers(
                        store,
                        from,
                        x,
                    );
                assert(now.contains(from));
            }
        }
    }
}

proof fn lemma_climb_prepend(
    store: StoreView,
    id: ObjectIDView,
    tail: Seq<ObjectIDView>,
    seen: Set<ObjectIDView>,
)
    requires
        climbed(store, tail, seen.insert(id)),
        !seen.contains(id),
        forall|from: ObjectIDView|
            reached(store, from) && #[trigger] refers(store, from, id) ==> seen.contains(from),
    ensures
        climbed(store, seq![id] + tail, seen),
{
    let all = seq![id] + tail;
    assert forall|i: int| 0 <= i < all.len() implies !seen.contains(#[trigger] all[i]) by {
        if i > 0 {
            assert(all[i] == tail[i - 1]);
        }
    }
    assert(all.no_duplicates()) by {
        assert forall|i: int, j: int|
            0 <= i < all.len() && 0 <= j < all.len() && i != j implies all[i] != all[j] by {
            if i > 0 && j > 0 {
                assert(tail[i - 1] != tail[j - 1]);
            } else if i > 0 {
                assert(!seen.insert(id).contains(tail[i - 1]));
            } else {
                assert(!seen.insert(id).contains(tail[j - 1]));
            }
        }
    }
    assert forall|i: int, from: ObjectIDView|
        0 <= i < all.len() && reached(store, from) && #[trigger] refers(
            store,
            from,
            all[i],
        ) implies seen.contains(from) || all.take(i).contains(from) by {
        if i > 0 {
            assert(all[i] == tail[i - 1]);
            assert(refers(store, from, tail[i - 1]));
            if from == id {
                assert(all.take(i)[0] == from);
            } else if !seen.contains(from) {
                let before = tail.take(i - 1);
                let j = choose|j: int| 0 <= j < before.len() && before[j] == from;
                assert(all.take(i)[j + 1] == from);
            }
        }
    }
}

proof fn lemma_climbs(store: StoreView, stack: Seq<ObjectIDView>, seen: Set<ObjectIDView>)
    requires
        store.dom().finite(),
        links_form_a_tree(store),
        climbing(store, stack, seen),
    ensures
        climbed(store, visits(store, stack, seen), seen),
    decreases store.dom().difference(seen).len(), count_in(stack, seen), stack.len(),
{
    if stack.len() == 0 {
        assert(visits(store, stack, seen).len() == 0);
    } else {
        let id = stack.last();
        let rest = stack.drop_last();
        let links = links_in(store[id].diffs());
        lemma_visit_shrinks(store, stack, seen, links);
        assert(stack.contains(id));
        if store.contains_key(id) {
            let next = rest + not_in(links, seen);
            lemma_climb_on(store, stack, seen);
            lemma_climbs(store, next, seen.insert(id));
            let tail = visits(store, next, seen.insert(id));
            lemma_climb_prepend(store, id, tail, seen);
            assert(visits(store, stack, seen) == seq![id] + tail);
        } else {
            assert forall|x: ObjectIDView| #[trigger] rest.contains(x) implies stack.contains(x) by {
                let i = choose|i: int| 0 <= i < rest.len() && rest[i] == x;
                assert(stack[i] == x);
            }
            lemma_climbs(store, rest, seen);
            assert(visits(store, stack, seen) == visits(store, rest, seen));
        }
    }
}

pub proof fn lemma_backwards_splits(store: StoreView, a: Seq<ObjectIDView>, b: Seq<ObjectIDView>)
    ensures
        diffs_backwards(store, a + b) == diffs_backwards(store, b) + diffs_backwards(store, a),
    decreases a.len(),
{
    if a.len() == 0 {
        assert(a + b =~= b);
        assert(diffs_backwards(store, b) + Seq::<DiffView>::empty() =~= diffs_backwards(store, b));
    } else {
        assert((a + b).drop_first() =~= a.drop_first() + b);
        lemma_backwards_splits(store, a.drop_first(), b);
        let own = store[a[0]].diffs();
        let rest = diffs_backwards(store, a.drop_first());
        let later = diffs_backwards(store, b);
        assert((later + rest) + own =~= later + (rest + own));
    }
}

/// Whether among the steps that make a document those that make `first` come before
/// those that make `second`.
pub open spec fn made_before(
    store: StoreView,
    first: ObjectIDView,
    second: ObjectIDView,
) -> bool {
    exists|x: Seq<DiffView>, y: Seq<DiffView>, z: Seq<DiffView>|
        document_diffs(store) == #[trigger] (x + store[first].diffs() + y + store[second].diffs()
            + z)
}

/// Where links form a tree, the steps that make a document make each object once.
pub proof fn tree_is_made_once(store: StoreView)
    requires
        store.dom().finite(),
        links_form_a_tree(store),
    ensures
        document_visits(store).no_duplicates(),
{
    lemma_tree_climbs(store);
}

proof fn lemma_tree_climbs(store: StoreView)
    requires
        store.dom().finite(),
        links_form_a_tree(store),
    ensures
        climbed(store, document_visits(store), Set::empty()),
{
    let start = seq![ObjectIDView::Root];
    let none = Set::<ObjectIDView>::empty();
    assert(reached_in(store, ObjectIDView::Root, 0));
    assert forall|x: ObjectIDView| #[trigger] start.contains(x) implies x is Root by {}
    lemma_climbs(store, start, none);
}

/// Where links form a tree, the steps that make a document make an object before
/// the one that refers to it.
pub proof fn tree_is_made_from_its_leaves(store: StoreView, from: ObjectIDView, to: ObjectIDView)
    requires
        store.dom().finite(),
        links_form_a_tree(store),
        reached(store, from),
        refers(store, from, to),
        store.contains_key(to),
    ensures
        made_before(store, to, from),
{
    let all = document_visits(store);
    lemma_tree_climbs(store);
    lemma_reached_next(store, from, to);
    document_makes_what_is_reached(store, to);
    let j = choose|j: int| 0 <= j < all.len() && all[j] == to;
    assert(refers(store, from, all[j]));
    let before = all.take(j);
    assert(before.contains(from));
    let i = choose|i: int| 0 <= i < before.len() && before[i] == from;
    let u = all.take(i);
    let v = all.subrange(i + 1, j);
    let w = all.skip(j + 1);
    let a = u + seq![from];
    let b = seq![to] + w;
    assert(all =~= a + (v + b));
    lemma_backwards_splits(store, a, v + b);
    lemma_backwards_splits(store, v, b);
    lemma_backwards_splits(store, u, seq![from]);
    lemma_backwards_splits(store, seq![to], w);
    lemma_one_backwards(store, from);
    lemma_one_backwards(store, to);
    let x = diffs_backwards(store, w);
    let y = diffs_backwards(store, v);
    let z = diffs_backwards(store, u);
    assert(document_diffs(store) =~= x + store[to].diffs() + y + store[from].diffs() + z);
}

pub proof fn lemma_one_backwards(store: StoreView, id: ObjectIDView)
    ensures
        diffs_backwards(store, seq![id]) == store[id].diffs(),
{
    let one = seq![id];
    assert(one.drop_first() =~= Seq::<ObjectIDView>::empty());
    assert(diffs_backwards(store, one.drop_first()) =~= Seq::<DiffView>::empty());
    assert(diffs_backwards(store, one) =~= store[id].diffs());
}

} // verus!

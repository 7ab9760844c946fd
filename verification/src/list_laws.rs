//! What holds of the order of a list.

use vstd::prelude::*;

use crate::actor_states::StatesView;
use crate::concurrent_operations::incorporated;
use crate::diff::SequenceType;
use crate::ids::{element_le, lemma_element_order, ElementIDView, ObjectIDView};
use crate::list_order::{
    ascending, followers, grown, lemma_ascending, lemma_element_le_total, lemma_list_order,
    lemma_walk_more, list_order, over_after, walk, walk_ends, walk_start, Walk,
};
use crate::name_laws::elements_with_one_counter_are_ordered_by_actor;
use crate::objects::{
    applied_op, lemma_list_insert_wf, lemma_list_mutate_wf, ListStateView, StoreView,
};
use crate::protocol::{OpView, OperationView};
use crate::seqs::{lemma_filter_all, lemma_filter_pair};

verus! {

/// What was inserted after each element.
pub type Following = Map<ElementIDView, Seq<ElementIDView>>;

/// Whether `p` is the head of the list or one of the elements `s`.
pub open spec fn head_or(s: Set<ElementIDView>, p: ElementIDView) -> bool {
    p is Head || s.contains(p)
}

/// Whether `x` was inserted after the head or after one of `s`.
pub open spec fn rooted(following: Following, s: Set<ElementIDView>, x: ElementIDView) -> bool {
    exists|p: ElementIDView|
        head_or(s, p) && #[trigger] followers(following, p).contains(x)
}

/// A walk on its way: `visited` was gone through, `stack` comes next.
spec fn walking(
    present: Set<ElementIDView>,
    following: Following,
    visited: Set<ElementIDView>,
    stack: Seq<ElementIDView>,
) -> bool {
    &&& stack.no_duplicates()
    &&& visited.subset_of(present)
    &&& forall|x: ElementIDView| #[trigger]
        stack.contains(x) ==> !visited.contains(x) && present.contains(x) && !(x is Head)
            && rooted(following, visited, x)
    &&& forall|x: ElementIDView| #[trigger]
        visited.contains(x) ==> !(x is Head) && rooted(following, visited, x)
    &&& forall|p: ElementIDView, c: ElementIDView|
        head_or(visited, p) && #[trigger] followers(following, p).contains(c) ==> visited.contains(
            c,
        ) || stack.contains(c)
}

/// In a grown list an element was inserted after one element only.
proof fn lemma_one_parent(
    present: Set<ElementIDView>,
    following: Following,
    p: ElementIDView,
    q: ElementIDView,
    x: ElementIDView,
)
    requires
        grown(present, following),
        followers(following, p).contains(x),
        followers(following, q).contains(x),
    ensures
        p == q,
        present.contains(x),
        !(x is Head),
{
    let i = choose|i: int| 0 <= i < followers(following, p).len() && followers(following, p)[i] == x;
    let j = choose|j: int| 0 <= j < followers(following, q).len() && followers(following, q)[j] == x;
    assert(followers(following, p)[i] == followers(following, q)[j]);
}

/// Sorting keeps elements distinct.
pub proof fn lemma_ascending_distinct(s: Seq<ElementIDView>)
    requires
        s.no_duplicates(),
    ensures
        ascending(s).no_duplicates(),
{
    lemma_ascending(s);
    s.lemma_multiset_has_no_duplicates();
    ascending(s).lemma_multiset_has_no_duplicates_conv();
}

/// What was inserted after one element is distinct.
proof fn lemma_followers_distinct(
    present: Set<ElementIDView>,
    following: Following,
    p: ElementIDView,
)
    requires
        grown(present, following),
    ensures
        followers(following, p).no_duplicates(),
{
    assert forall|i: int, j: int|
        0 <= i < followers(following, p).len() && 0 <= j < followers(following, p).len() && i
            != j implies followers(following, p)[i] != followers(following, p)[j] by {}
}

/// What a walk goes on with after its next element.
spec fn stepped(following: Following, stack: Seq<ElementIDView>) -> Seq<ElementIDView> {
    stack.drop_last() + ascending(followers(following, stack.last()))
}

proof fn lemma_walk_step(
    present: Set<ElementIDView>,
    following: Following,
    visited: Set<ElementIDView>,
    stack: Seq<ElementIDView>,
)
    requires
        grown(present, following),
        walking(present, following, visited, stack),
        stack.len() > 0,
    ensures
        walking(present, following, visited.insert(stack.last()), stepped(following, stack)),
        present.contains(stack.last()),
        !visited.contains(stack.last()),
        !(stack.last() is Head),
{
    let e = stack.last();
    let kids = followers(following, e);
    let rest = stack.drop_last();
    let next = stepped(following, stack);
    let seen = visited.insert(e);
    assert(stack.contains(e));
    lemma_ascending(kids);
    lemma_followers_distinct(present, following, e);
    lemma_ascending_distinct(kids);
    assert(rest.no_duplicates());
    assert forall|x: ElementIDView| next.contains(x) <==> rest.contains(x) || kids.contains(x) by {
        if rest.contains(x) {
            let i = choose|i: int| 0 <= i < rest.len() && rest[i] == x;
            assert(next[i] == x);
        }
        if kids.contains(x) {
            assert(ascending(kids).contains(x));
            let i = choose|i: int| 0 <= i < kids.len() && ascending(kids)[i] == x;
            assert(next[rest.len() + i] == x);
        }
        if next.contains(x) {
            let i = choose|i: int| 0 <= i < next.len() && next[i] == x;
            if i < rest.len() {
                assert(rest[i] == x);
            } else {
                assert(ascending(kids)[i - rest.len()] == x);
                assert(ascending(kids).contains(x));
            }
        }
    }
    // What follows upon the next element was not come upon before.
    assert forall|x: ElementIDView| kids.contains(x) implies !visited.contains(x)
        && !stack.contains(x) by {
        if visited.contains(x) || stack.contains(x) {
            assert(rooted(following, visited, x));
            let p = choose|p: ElementIDView|
                head_or(visited, p) && #[trigger] followers(following, p).contains(x);
            lemma_one_parent(present, following, p, e, x);
        }
    }
    assert forall|x: ElementIDView| rest.contains(x) implies stack.contains(x) && x != e by {
        let i = choose|i: int| 0 <= i < rest.len() && rest[i] == x;
        assert(stack[i] == x);
        assert(stack[stack.len() - 1] == e);
    }
    assert(next.no_duplicates()) by {
        assert forall|i: int, j: int|
            0 <= i < next.len() && 0 <= j < next.len() && i != j implies next[i] != next[j] by {
            let n = rest.len() as int;
            if i < n && j < n {
                assert(rest[i] != rest[j]);
            } else if i >= n && j >= n {
                assert(ascending(kids)[i - n] != ascending(kids)[j - n]);
            } else {
                let (a, b) = if i < n {
                    (i, j)
                } else {
                    (j, i)
                };
                assert(rest.contains(rest[a]));
                assert(ascending(kids).contains(ascending(kids)[b - n]));
                assert(kids.contains(ascending(kids)[b - n]));
            }
        }
    }
    assert forall|x: ElementIDView| rooted(following, visited, x) implies rooted(
        following,
        seen,
        x,
    ) by {
        let p = choose|p: ElementIDView|
            head_or(visited, p) && #[trigger] followers(following, p).contains(x);
        assert(head_or(seen, p));
    }
    assert forall|x: ElementIDView| #[trigger] next.contains(x) implies !seen.contains(x)
        && present.contains(x) && !(x is Head) && rooted(following, seen, x) by {
        if kids.contains(x) {
            lemma_one_parent(present, following, e, e, x);
            assert(head_or(seen, e));
            assert(x != e) by {
                if x == e {
                    assert(stack.contains(x));
                }
            }
        }
    }
    assert forall|p: ElementIDView, c: ElementIDView|
        head_or(seen, p) && #[trigger] followers(following, p).contains(c) implies seen.contains(c)
        || next.contains(c) by {
        if p != e {
            assert(visited.contains(c) || stack.contains(c));
            if stack.contains(c) && c != e {
                let i = choose|i: int| 0 <= i < stack.len() && stack[i] == c;
                assert(rest[i] == c);
            }
        }
    }
    assert(seen.subset_of(present));
}

/// What holds of the elements that a walk has still to go through.
pub open spec fn rest_of_walk(
    present: Set<ElementIDView>,
    following: Following,
    visited: Set<ElementIDView>,
    order: Seq<ElementIDView>,
) -> bool {
    &&& order.no_duplicates()
    &&& forall|i: int|
        0 <= i < order.len() ==> {
            &&& present.contains(#[trigger] order[i])
            &&& !visited.contains(order[i])
            &&& !(order[i] is Head)
            &&& rooted(following, visited.union(order.take(i).to_set()), order[i])
        }
    &&& forall|p: ElementIDView, c: ElementIDView|
        head_or(visited.union(order.to_set()), p) && #[trigger] followers(following, p).contains(c)
            ==> visited.contains(c) || order.contains(c)
}

proof fn lemma_rest_prepend(
    present: Set<ElementIDView>,
    following: Following,
    visited: Set<ElementIDView>,
    e: ElementIDView,
    order: Seq<ElementIDView>,
)
    requires
        rest_of_walk(present, following, visited.insert(e), order),
        present.contains(e),
        !visited.contains(e),
        !(e is Head),
        rooted(following, visited, e),
    ensures
        rest_of_walk(present, following, visited, seq![e] + order),
{
    let all = seq![e] + order;
    assert forall|i: int| 0 <= i < all.len() implies {
        &&& present.contains(#[trigger] all[i])
        &&& !visited.contains(all[i])
        &&& !(all[i] is Head)
        &&& rooted(following, visited.union(all.take(i).to_set()), all[i])
    } by {
        if i == 0 {
            assert(visited.union(all.take(0).to_set()) =~= visited);
        } else {
            assert(all[i] == order[i - 1]);
            let a = visited.insert(e).union(order.take(i - 1).to_set());
            let b = visited.union(all.take(i).to_set());
            assert forall|x: ElementIDView| a.contains(x) implies b.contains(x) by {
                if x == e {
                    assert(all.take(i)[0] == x);
                } else if order.take(i - 1).contains(x) {
                    let before = order.take(i - 1);
                    let j = choose|j: int| 0 <= j < before.len() && before[j] == x;
                    assert(all.take(i)[j + 1] == x);
                }
            }
            let p = choose|p: ElementIDView|
                head_or(a, p) && #[trigger] followers(following, p).contains(all[i]);
            assert(head_or(b, p));
        }
    }
    assert forall|x: ElementIDView| all.contains(x) <==> x == e || order.contains(x) by {
        if order.contains(x) {
            let j = choose|j: int| 0 <= j < order.len() && order[j] == x;
            assert(all[j + 1] == x);
        }
        if x == e {
            assert(all[0] == x);
        }
        if all.contains(x) {
            let j = choose|j: int| 0 <= j < all.len() && all[j] == x;
            if j > 0 {
                assert(order[j - 1] == x);
            }
        }
    }
    assert(all.no_duplicates()) by {
        assert(!order.contains(e)) by {
            if order.contains(e) {
                let j = choose|j: int| 0 <= j < order.len() && order[j] == e;
                assert(!visited.insert(e).contains(order[j]));
            }
        }
        assert forall|i: int, j: int|
            0 <= i < all.len() && 0 <= j < all.len() && i != j implies all[i] != all[j] by {
            if i > 0 && j > 0 {
                assert(order[i - 1] != order[j - 1]);
            } else if i == 0 {
                assert(order.contains(order[j - 1]));
            } else {
                assert(order.contains(order[i - 1]));
            }
        }
    }
    assert forall|p: ElementIDView, c: ElementIDView|
        head_or(visited.union(all.to_set()), p) && #[trigger] followers(following, p).contains(
            c,
        ) implies visited.contains(c) || all.contains(c) by {
        assert(head_or(visited.insert(e).union(order.to_set()), p));
    }
}

proof fn lemma_walk_done(
    present: Set<ElementIDView>,
    following: Following,
    visited: Set<ElementIDView>,
    stack: Seq<ElementIDView>,
    steps: nat,
)
    requires
        grown(present, following),
        walking(present, following, visited, stack),
        steps + visited.len() >= present.len(),
    ensures
        walk(present, following, stack, steps) is Done,
        rest_of_walk(present, following, visited, walk(present, following, stack, steps)->Done_0),
    decreases steps,
{
    vstd::set_lib::lemma_set_subset_finite(present, visited);
    if stack.len() == 0 {
        let order = Seq::<ElementIDView>::empty();
        assert(visited.union(order.to_set()) =~= visited);
    } else {
        let e = stack.last();
        assert(stack.contains(e));
        lemma_walk_step(present, following, visited, stack);
        let seen = visited.insert(e);
        vstd::set_lib::lemma_len_subset(seen, present);
        lemma_walk_done(present, following, seen, stepped(following, stack), (steps - 1) as nat);
        let order = walk(
            present,
            following,
            stepped(following, stack),
            (steps - 1) as nat,
        )->Done_0;
        lemma_rest_prepend(present, following, visited, e, order);
    }
}

proof fn lemma_walk_starts(present: Set<ElementIDView>, following: Following)
    requires
        grown(present, following),
    ensures
        walking(present, following, Set::empty(), walk_start(following)),
{
    let kids = followers(following, ElementIDView::Head);
    let none = Set::<ElementIDView>::empty();
    lemma_ascending(kids);
    lemma_followers_distinct(present, following, ElementIDView::Head);
    lemma_ascending_distinct(kids);
    assert forall|x: ElementIDView| #[trigger] walk_start(following).contains(x) implies !(
    x is Head) && present.contains(x) && rooted(following, none, x) by {
        lemma_one_parent(present, following, ElementIDView::Head, ElementIDView::Head, x);
        assert(head_or(none, ElementIDView::Head));
    }
}

/// The walk through a list that grew by insertions comes to an end, and finds
/// something known of every element.
pub proof fn grown_list_has_order(present: Set<ElementIDView>, following: Following)
    requires
        grown(present, following),
    ensures
        walk_ends(present, following),
        list_order(present, following) is Done,
{
    lemma_walk_starts(present, following);
    lemma_walk_done(present, following, Set::empty(), walk_start(following), present.len());
    assert(over_after(present, following, present.len()));
    lemma_list_order(present, following, present.len());
}

/// Something is known of every element of a grown list.
pub proof fn lemma_order_known(present: Set<ElementIDView>, following: Following)
    requires
        grown(present, following),
    ensures
        forall|i: int|
            0 <= i < list_order(present, following)->Done_0.len() ==> present.contains(
                #[trigger] list_order(present, following)->Done_0[i],
            ),
{
    lemma_walk_starts(present, following);
    lemma_walk_done(present, following, Set::empty(), walk_start(following), present.len());
    assert(over_after(present, following, present.len()));
    lemma_list_order(present, following, present.len());
}

/// A list holds every element once; each comes after the one it was inserted
/// after; and what was inserted at the head, or after an element of the list,
/// is in the list.
pub proof fn list_holds_what_was_inserted(present: Set<ElementIDView>, following: Following)
    requires
        grown(present, following),
    ensures
        ({
            let order = list_order(present, following)->Done_0;
            &&& order.no_duplicates()
            &&& forall|i: int|
                0 <= i < order.len() ==> rooted(
                    following,
                    order.take(i).to_set(),
                    #[trigger] order[i],
                )
            &&& forall|p: ElementIDView, c: ElementIDView|
                head_or(order.to_set(), p) && #[trigger] followers(following, p).contains(c)
                    ==> order.contains(c)
        }),
{
    lemma_walk_starts(present, following);
    let none = Set::<ElementIDView>::empty();
    lemma_walk_done(present, following, none, walk_start(following), present.len());
    assert(over_after(present, following, present.len()));
    lemma_list_order(present, following, present.len());
    let order = list_order(present, following)->Done_0;
    assert(none.union(order.to_set()) =~= order.to_set());
    assert forall|i: int| 0 <= i < order.len() implies rooted(
        following,
        order.take(i).to_set(),
        #[trigger] order[i],
    ) by {
        assert(none.union(order.take(i).to_set()) =~= order.take(i).to_set());
    }
}

/// Lists that differ only in the order in which elements came are sorted alike.
proof fn lemma_sorted_alike(s: Seq<ElementIDView>, t: Seq<ElementIDView>)
    requires
        s.to_multiset() == t.to_multiset(),
    ensures
        ascending(s) == ascending(t),
{
    lemma_element_le_total();
    lemma_ascending(s);
    lemma_ascending(t);
    vstd::seq_lib::lemma_sorted_unique(
        ascending(s),
        ascending(t),
        |a: ElementIDView, b: ElementIDView| element_le(a, b),
    );
}

/// Whether the same was inserted after each element, in whatever order it came.
pub open spec fn same_insertions(f: Following, g: Following) -> bool {
    forall|p: ElementIDView| #[trigger]
        followers(f, p).to_multiset() == followers(g, p).to_multiset()
}

proof fn lemma_walks_alike(
    present: Set<ElementIDView>,
    f: Following,
    g: Following,
    stack: Seq<ElementIDView>,
    steps: nat,
)
    requires
        same_insertions(f, g),
    ensures
        walk(present, f, stack, steps) == walk(present, g, stack, steps),
    decreases steps,
{
    if stack.len() > 0 && steps > 0 {
        let e = stack.last();
        assert(followers(f, e).to_multiset() == followers(g, e).to_multiset());
        lemma_sorted_alike(followers(f, e), followers(g, e));
        lemma_walks_alike(
            present,
            f,
            g,
            stack.drop_last() + ascending(followers(f, e)),
            (steps - 1) as nat,
        );
    }
}

/// The order of a list does not depend on the order in which insertions came.
pub proof fn order_does_not_depend_on_arrival(
    present: Set<ElementIDView>,
    f: Following,
    g: Following,
)
    requires
        same_insertions(f, g),
        walk_ends(present, f),
    ensures
        list_order(present, f) == list_order(present, g),
{
    let head = ElementIDView::Head;
    assert(followers(f, head).to_multiset() == followers(g, head).to_multiset());
    lemma_sorted_alike(followers(f, head), followers(g, head));
    let steps = choose|steps: nat| over_after(present, f, steps);
    lemma_walks_alike(present, f, g, walk_start(f), steps);
    assert(over_after(present, g, steps));
    lemma_list_order(present, f, steps);
    lemma_list_order(present, g, steps);
}

/// Sorting and leaving out can be done in either order.
proof fn lemma_sorted_filter(s: Seq<ElementIDView>, p: spec_fn(ElementIDView) -> bool)
    ensures
        ascending(s).filter(p) == ascending(s.filter(p)),
{
    let le = |a: ElementIDView, b: ElementIDView| element_le(a, b);
    let left = ascending(s).filter(p);
    let right = ascending(s.filter(p));
    lemma_element_le_total();
    lemma_ascending(s);
    lemma_ascending(s.filter(p));
    lemma_filter_counts(s, p);
    lemma_filter_counts(ascending(s), p);
    assert(left.to_multiset() =~= right.to_multiset());
    assert forall|i: int, j: int| 0 <= i < j < left.len() implies #[trigger] le(left[i], left[j]) by {
        let (a, b) = lemma_filter_pair(ascending(s), p, i, j);
        assert(le(ascending(s)[a], ascending(s)[b]));
    }
    vstd::seq_lib::lemma_sorted_unique(left, right, le);
}

proof fn lemma_filter_counts(s: Seq<ElementIDView>, p: spec_fn(ElementIDView) -> bool)
    ensures
        forall|x: ElementIDView| #[trigger]
            s.filter(p).to_multiset().count(x) == if p(x) {
                s.to_multiset().count(x)
            } else {
                0
            },
    decreases s.len(),
{
    broadcast use vstd::seq_lib::group_to_multiset_ensures;

    if s.len() == 0 {
        reveal(Seq::filter);
        assert(s.filter(p) =~= s);
        assert forall|x: ElementIDView| #[trigger] s.to_multiset().count(x) == 0 by {
            assert(!s.contains(x));
        }
    } else {
        let rest = s.drop_last();
        lemma_filter_counts(rest, p);
        assert(s =~= rest.push(s.last()));
        rest.lemma_filter_push(s.last(), p);
    }
}

/// Those of a list of elements that are in `known`.
spec fn those_in(s: Seq<ElementIDView>, known: Set<ElementIDView>) -> Seq<ElementIDView> {
    s.filter(|x: ElementIDView| known.contains(x))
}

/// How a walk goes through a list with more elements: it meets those of the
/// smaller list in the order of the smaller list.
proof fn lemma_walk_inside(
    present: Set<ElementIDView>,
    f: Following,
    known: Set<ElementIDView>,
    larger: Set<ElementIDView>,
    g: Following,
    stack: Seq<ElementIDView>,
    steps: nat,
)
    requires
        known.subset_of(present),
        forall|e: ElementIDView|
            known.contains(e) ==> (#[trigger] those_in(followers(g, e), known)).to_multiset()
                == followers(f, e).to_multiset(),
        forall|e: ElementIDView, i: int|
            !known.contains(e) && !(e is Head) && 0 <= i < followers(g, e).len()
                ==> !known.contains(#[trigger] followers(g, e)[i]),
        forall|e: ElementIDView, i: int|
            0 <= i < followers(g, e).len() ==> !((#[trigger] followers(g, e)[i]) is Head),
        forall|i: int| 0 <= i < stack.len() ==> !((#[trigger] stack[i]) is Head),
        walk(larger, g, stack, steps) is Done,
    ensures
        walk(present, f, stack.filter(|x: ElementIDView| known.contains(x)), steps) == Walk::Done(
            walk(larger, g, stack, steps)->Done_0.filter(|x: ElementIDView| known.contains(x)),
        ),
    decreases steps,
{
    let p = |x: ElementIDView| known.contains(x);
    if stack.len() == 0 {
        reveal(Seq::filter);
        assert(stack.filter(p) =~= Seq::<ElementIDView>::empty());
        assert(Seq::<ElementIDView>::empty().filter(p) =~= Seq::<ElementIDView>::empty());
    } else {
        let e = stack.last();
        let rest = stack.drop_last();
        let kids = followers(g, e);
        let next = rest + ascending(kids);
        let order = walk(larger, g, next, (steps - 1) as nat)->Done_0;
        lemma_ascending(kids);
        assert(!(stack[stack.len() - 1] is Head));
        assert forall|i: int| 0 <= i < next.len() implies !((#[trigger] next[i]) is Head) by {
            if i < rest.len() {
                assert(next[i] == stack[i]);
            } else {
                let x = ascending(kids)[i - rest.len()];
                assert(ascending(kids).contains(x));
                assert(kids.contains(x));
                let j = choose|j: int| 0 <= j < kids.len() && kids[j] == x;
                assert(!(followers(g, e)[j] is Head));
            }
        }
        lemma_walk_inside(present, f, known, larger, g, next, (steps - 1) as nat);
        Seq::filter_distributes_over_add(rest, ascending(kids), p);
        lemma_sorted_filter(kids, p);
        assert(stack =~= rest.push(e));
        rest.lemma_filter_push(e, p);
        order.lemma_filter_prepend(e, p);
        if known.contains(e) {
            assert(those_in(kids, known) == kids.filter(p));
            lemma_sorted_alike(kids.filter(p), followers(f, e));
            assert(stack.filter(p).drop_last() =~= rest.filter(p));
            assert(next.filter(p) == rest.filter(p) + ascending(followers(f, e)));
            assert((seq![e] + order).filter(p) =~= seq![e] + order.filter(p));
        } else {
            assert forall|i: int| 0 <= i < kids.len() implies !p(#[trigger] kids[i]) by {
                assert(!known.contains(followers(g, e)[i]));
            }
            kids.lemma_all_neg_filter_empty(p);
            lemma_ascending(kids.filter(p));
            assert(next.filter(p) =~= stack.filter(p));
            assert((seq![e] + order).filter(p) =~= order.filter(p));
            lemma_walk_more(present, f, stack.filter(p), (steps - 1) as nat, steps);
        }
    }
}

/// An insertion leaves the elements that were in a list in the order in which
/// they were; and the element that it inserts after one of them, or at the
/// head, is in the list.
pub proof fn insertion_keeps_the_order(
    l: ListStateView,
    parent: ElementIDView,
    actor: Seq<char>,
    elem: u32,
)
    requires
        l.wf(),
        !l.insertions.contains_key(ElementIDView::SpecificElementID(actor, elem)),
    ensures
        ({
            let after = l.with_insertion(parent, actor, elem);
            &&& after.order().filter(|e: ElementIDView| l.order().contains(e)) == l.order()
            &&& parent is Head || l.order().contains(parent) ==> after.order().contains(
                ElementIDView::SpecificElementID(actor, elem),
            )
        }),
{
    let new = ElementIDView::SpecificElementID(actor, elem);
    let after = l.with_insertion(parent, actor, elem);
    let f = l.following;
    let g = after.following;
    let present = l.ops.dom();
    let larger = after.ops.dom();
    let order = l.order();
    let known = order.to_set();
    let p = |x: ElementIDView| known.contains(x);
    let q = |x: ElementIDView| order.contains(x);
    assert(p =~= q);
    lemma_list_insert_wf(l, parent, actor, elem);
    grown_list_has_order(present, f);
    grown_list_has_order(larger, g);
    list_holds_what_was_inserted(present, f);
    list_holds_what_was_inserted(larger, g);
    lemma_order_known(present, f);
    assert(known.subset_of(present));
    assert forall|e: ElementIDView| #[trigger]
        followers(g, e) == if e == parent {
            followers(f, e).push(new)
        } else {
            followers(f, e)
        } by {}
    assert forall|e: ElementIDView, x: ElementIDView| #[trigger]
        followers(f, e).contains(x) implies x != new by {
        let i = choose|i: int| 0 <= i < followers(f, e).len() && followers(f, e)[i] == x;
        assert(l.insertions.contains_key(followers(f, e)[i]));
    }
    // The elements of the list are followers of the head or of one another.
    assert forall|x: ElementIDView| known.contains(x) implies x != new && !(x is Head) && rooted(
        f,
        known,
        x,
    ) by {
        let i = choose|i: int| 0 <= i < order.len() && order[i] == x;
        assert(rooted(f, order.take(i).to_set(), order[i]));
        let e = choose|e: ElementIDView|
            head_or(order.take(i).to_set(), e) && #[trigger] followers(f, e).contains(x);
        assert(head_or(known, e)) by {
            if order.take(i).contains(e) {
                let before = order.take(i);
                let j = choose|j: int| 0 <= j < before.len() && before[j] == e;
                assert(order[j] == e);
            }
        }
        lemma_one_parent(present, f, e, e, x);
    }
    assert forall|e: ElementIDView| known.contains(e) || e is Head implies (#[trigger] those_in(
        followers(g, e),
        known,
    )).to_multiset() == followers(f, e).to_multiset() by {
        let kids = followers(f, e);
        assert forall|i: int| 0 <= i < kids.len() implies p(#[trigger] kids[i]) by {
            assert(head_or(order.to_set(), e));
            assert(followers(f, e).contains(kids[i]));
        }
        lemma_filter_all(kids, p);
        kids.lemma_filter_push(new, p);
        assert(those_in(followers(g, e), known) == kids);
    }
    assert forall|e: ElementIDView, i: int|
        !known.contains(e) && !(e is Head) && 0 <= i < followers(g, e).len() implies !known.contains(
        #[trigger] followers(g, e)[i],
    ) by {
        let x = followers(g, e)[i];
        if known.contains(x) {
            assert(x != new);
            assert(followers(f, e)[i] == x);
            assert(followers(f, e).contains(x));
            assert(rooted(f, known, x));
            let r = choose|r: ElementIDView|
                head_or(known, r) && #[trigger] followers(f, r).contains(x);
            lemma_one_parent(present, f, r, e, x);
        }
    }
    let head = ElementIDView::Head;
    let start = walk_start(g);
    lemma_ascending(followers(g, head));
    assert forall|i: int| 0 <= i < start.len() implies !((#[trigger] start[i]) is Head) by {
        assert(start.contains(start[i]));
        assert(followers(g, head).contains(start[i]));
        lemma_one_parent(larger, g, head, head, start[i]);
    }
    let steps = choose|steps: nat| over_after(larger, g, steps);
    lemma_list_order(larger, g, steps);
    lemma_walk_inside(present, f, known, larger, g, start, steps);
    lemma_sorted_filter(followers(g, head), p);
    assert(those_in(followers(g, head), known).to_multiset() == followers(
        f,
        head,
    ).to_multiset());
    lemma_sorted_alike(followers(g, head).filter(p), followers(f, head));
    assert(start.filter(p) == walk_start(f));
    assert(over_after(present, f, steps));
    lemma_list_order(present, f, steps);
    assert(after.order().filter(p) == order);
    if parent is Head || order.contains(parent) {
        let all = after.order();
        assert(followers(g, parent)[followers(f, parent).len() as int] == new);
        assert(followers(g, parent).contains(new));
        assert(head_or(all.to_set(), parent)) by {
            if order.contains(parent) {
                assert(all.filter(p).contains(parent));
                all.lemma_filter_contains_rev(p, parent);
            }
        }
    }
}

/// Whether `e` stands in one of the lists of what was inserted after an element.
pub open spec fn follows_something(following: Following, e: ElementIDView) -> bool {
    exists|p: ElementIDView| #[trigger] followers(following, p).contains(e)
}

/// Whether a list is what insertions and operations on elements make of an empty
/// one. The elements that are noted as inserted are those that stand after
/// another one or after the head. Each of them is noted as itself, stands in one
/// place only, and something is known of it. The counter that is kept is the
/// largest of all inserted, and 0 if there is none.
pub open spec fn made_by_insertions(l: ListStateView) -> bool {
    &&& l.wf()
    &&& forall|e: ElementIDView|
        l.insertions.contains_key(e) <==> #[trigger] follows_something(l.following, e)
    &&& forall|e: ElementIDView| #[trigger]
        l.insertions.contains_key(e) ==> l.insertions[e] == e && !(e is Head)
            && l.ops.contains_key(e)
    &&& forall|p: ElementIDView, i: int, q: ElementIDView, j: int|
        0 <= i < followers(l.following, p).len() && 0 <= j < followers(l.following, q).len()
            && #[trigger] followers(l.following, p)[i] == #[trigger] followers(l.following, q)[j]
            ==> p == q && i == j
    &&& forall|actor: Seq<char>, n: u32| #[trigger]
        l.insertions.contains_key(ElementIDView::SpecificElementID(actor, n)) ==> n <= l.max_elem
    &&& l.max_elem == 0 || exists|actor: Seq<char>| #[trigger]
        l.insertions.contains_key(ElementIDView::SpecificElementID(actor, l.max_elem))
}

/// An empty list is made by no insertions.
pub proof fn empty_list_is_made_by_insertions(
    sequence_type: SequenceType,
    object_id: ObjectIDView,
)
    ensures
        made_by_insertions(ListStateView::fresh(sequence_type, object_id)),
{
    let l = ListStateView::fresh(sequence_type, object_id);
    assert forall|e: ElementIDView| !(#[trigger] follows_something(l.following, e)) by {}
}

/// An insertion leaves a list one that is made by insertions. The counter that is
/// kept becomes that of the new element, if that is larger.
pub proof fn insertion_makes_the_list(
    l: ListStateView,
    parent: ElementIDView,
    actor: Seq<char>,
    elem: u32,
)
    requires
        made_by_insertions(l),
        !l.insertions.contains_key(ElementIDView::SpecificElementID(actor, elem)),
    ensures
        made_by_insertions(l.with_insertion(parent, actor, elem)),
        l.with_insertion(parent, actor, elem).max_elem == if elem > l.max_elem {
            elem
        } else {
            l.max_elem
        },
{
    let new = ElementIDView::SpecificElementID(actor, elem);
    let after = l.with_insertion(parent, actor, elem);
    lemma_list_insert_wf(l, parent, actor, elem);
    let f = l.following;
    let g = after.following;
    assert forall|p: ElementIDView| #[trigger]
        followers(g, p) == if p == parent {
            followers(f, p).push(new)
        } else {
            followers(f, p)
        } by {}
    assert forall|e: ElementIDView|
        after.insertions.contains_key(e) <==> #[trigger] follows_something(g, e) by {
        assert(l.insertions.contains_key(e) <==> follows_something(f, e));
        if follows_something(g, e) {
            let p = choose|p: ElementIDView| #[trigger] followers(g, p).contains(e);
            let i = choose|i: int| 0 <= i < followers(g, p).len() && followers(g, p)[i] == e;
            assert(after.insertions.contains_key(followers(g, p)[i]));
        }
        if follows_something(f, e) {
            let p = choose|p: ElementIDView| #[trigger] followers(f, p).contains(e);
            let i = choose|i: int| 0 <= i < followers(f, p).len() && followers(f, p)[i] == e;
            assert(followers(g, p)[i] == e);
            assert(followers(g, p).contains(e));
        }
        assert(followers(g, parent)[followers(f, parent).len() as int] == new);
        assert(followers(g, parent).contains(new));
    }
    assert forall|e: ElementIDView| #[trigger] after.insertions.contains_key(e) implies {
        after.insertions[e] == e && !(e is Head) && after.ops.contains_key(e)
    } by {
        if e != new {
            assert(l.insertions.contains_key(e));
        }
    }
    assert forall|a: Seq<char>, n: u32| #[trigger]
        after.insertions.contains_key(ElementIDView::SpecificElementID(a, n)) implies n
        <= after.max_elem by {
        if ElementIDView::SpecificElementID(a, n) != new {
            assert(l.insertions.contains_key(ElementIDView::SpecificElementID(a, n)));
        }
    }
    if elem > l.max_elem {
        assert(after.insertions.contains_key(
            ElementIDView::SpecificElementID(actor, after.max_elem),
        ));
    } else if l.max_elem > 0 {
        let a = choose|a: Seq<char>| #[trigger]
            l.insertions.contains_key(ElementIDView::SpecificElementID(a, l.max_elem));
        assert(after.insertions.contains_key(
            ElementIDView::SpecificElementID(a, after.max_elem),
        ));
    }
}

/// An operation on an element leaves a list one that is made by insertions.
pub proof fn operation_leaves_the_list_as_made(
    l: ListStateView,
    states: StatesView,
    op: OpView,
    e: ElementIDView,
)
    requires
        made_by_insertions(l),
    ensures
        made_by_insertions(l.with_field(e, incorporated(states, l.field(e), op))),
{
    lemma_list_mutate_wf(l, states, op, e);
    let after = l.with_field(e, incorporated(states, l.field(e), op));
    assert forall|x: ElementIDView| #[trigger] after.insertions.contains_key(x) implies {
        after.insertions[x] == x && !(x is Head) && after.ops.contains_key(x)
    } by {
        assert(l.insertions.contains_key(x));
    }
    assert(after.insertions == l.insertions && after.following == l.following);
    if l.max_elem > 0 {
        let a = choose|a: Seq<char>| #[trigger]
            l.insertions.contains_key(ElementIDView::SpecificElementID(a, l.max_elem));
        assert(after.insertions.contains_key(
            ElementIDView::SpecificElementID(a, after.max_elem),
        ));
    }
}

/// The elements of a list that is made by insertions can be put in order; and they
/// are noted as inserted.
pub proof fn made_list_has_order(l: ListStateView)
    requires
        made_by_insertions(l),
    ensures
        walk_ends(l.ops.dom(), l.following),
        list_order(l.ops.dom(), l.following) is Done,
        forall|i: int|
            0 <= i < l.order().len() ==> l.insertions.contains_key(#[trigger] l.order()[i]),
{
    let order = l.order();
    grown_list_has_order(l.ops.dom(), l.following);
    list_holds_what_was_inserted(l.ops.dom(), l.following);
    assert forall|i: int| 0 <= i < order.len() implies l.insertions.contains_key(
        #[trigger] order[i],
    ) by {
        assert(rooted(l.following, order.take(i).to_set(), order[i]));
        assert(follows_something(l.following, order[i]));
    }
}

/// Whether `a` comes before `b` in a list.
pub open spec fn precedes(order: Seq<ElementIDView>, a: ElementIDView, b: ElementIDView) -> bool {
    exists|i: int, j: int| 0 <= i < j < order.len() && #[trigger] order[i] == a && #[trigger] order[j] == b
}

/// A walk goes through all that it has still to go through, from the end.
proof fn lemma_stack_order(
    present: Set<ElementIDView>,
    following: Following,
    stack: Seq<ElementIDView>,
    steps: nat,
)
    requires
        walk(present, following, stack, steps) is Done,
    ensures
        ({
            let order = walk(present, following, stack, steps)->Done_0;
            &&& forall|i: int| 0 <= i < stack.len() ==> order.contains(#[trigger] stack[i])
            &&& forall|i: int, j: int|
                0 <= i < j < stack.len() ==> precedes(
                    order,
                    #[trigger] stack[j],
                    #[trigger] stack[i],
                )
        }),
    decreases steps,
{
    if stack.len() > 0 {
        let e = stack.last();
        let rest = stack.drop_last();
        let next = rest + ascending(followers(following, e));
        let tail = walk(present, following, next, (steps - 1) as nat)->Done_0;
        let order = seq![e] + tail;
        lemma_stack_order(present, following, next, (steps - 1) as nat);
        assert forall|i: int| 0 <= i < stack.len() implies order.contains(#[trigger] stack[i]) by {
            if i < rest.len() {
                assert(next[i] == stack[i]);
                assert(tail.contains(next[i]));
                let k = choose|k: int| 0 <= k < tail.len() && tail[k] == stack[i];
                assert(order[k + 1] == stack[i]);
            } else {
                assert(order[0] == e);
            }
        }
        assert forall|i: int, j: int| 0 <= i < j < stack.len() implies precedes(
            order,
            #[trigger] stack[j],
            #[trigger] stack[i],
        ) by {
            assert(next[i] == stack[i]);
            if j < rest.len() {
                assert(next[j] == stack[j]);
                assert(precedes(tail, next[j], next[i]));
                lemma_precedes_prepend(tail, e, next[j], next[i]);
            } else {
                assert(tail.contains(next[i]));
                let k = choose|k: int| 0 <= k < tail.len() && tail[k] == stack[i];
                assert(order[0] == stack[j] && order[k + 1] == stack[i]);
            }
        }
    }
}

proof fn lemma_precedes_prepend(
    tail: Seq<ElementIDView>,
    e: ElementIDView,
    a: ElementIDView,
    b: ElementIDView,
)
    requires
        precedes(tail, a, b),
    ensures
        precedes(seq![e] + tail, a, b),
{
    let (i, j) = choose|i: int, j: int|
        0 <= i < j < tail.len() && #[trigger] tail[i] == a && #[trigger] tail[j] == b;
    let order = seq![e] + tail;
    assert(order[i + 1] == a && order[j + 1] == b);
}

/// Of two elements that were inserted after the same one, the greater comes
/// first; and the greatest comes right after the one it was inserted after.
proof fn lemma_siblings(
    present: Set<ElementIDView>,
    following: Following,
    stack: Seq<ElementIDView>,
    steps: nat,
    i: int,
)
    requires
        walk(present, following, stack, steps) is Done,
        0 <= i < walk(present, following, stack, steps)->Done_0.len(),
    ensures
        ({
            let order = walk(present, following, stack, steps)->Done_0;
            let kids = ascending(followers(following, order[i]));
            &&& kids.len() > 0 ==> i + 1 < order.len() && order[i + 1] == kids.last()
            &&& forall|x: int, y: int|
                0 <= x < y < kids.len() ==> precedes(order, #[trigger] kids[y], #[trigger] kids[x])
        }),
    decreases steps,
{
    let e = stack.last();
    let next = stack.drop_last() + ascending(followers(following, e));
    let tail = walk(present, following, next, (steps - 1) as nat)->Done_0;
    let order = seq![e] + tail;
    let kids = ascending(followers(following, order[i]));
    if i == 0 {
        lemma_stack_order(present, following, next, (steps - 1) as nat);
        let n = stack.drop_last().len();
        assert forall|x: int, y: int| 0 <= x < y < kids.len() implies precedes(
            order,
            #[trigger] kids[y],
            #[trigger] kids[x],
        ) by {
            assert(next[n + x] == kids[x] && next[n + y] == kids[y]);
            assert(precedes(tail, next[n + y], next[n + x]));
            lemma_precedes_prepend(tail, e, kids[y], kids[x]);
        }
        if kids.len() > 0 {
            assert(next.last() == kids.last());
        }
    } else {
        assert(order[i] == tail[i - 1]);
        lemma_siblings(present, following, next, (steps - 1) as nat, i - 1);
        assert forall|x: int, y: int| 0 <= x < y < kids.len() implies precedes(
            order,
            #[trigger] kids[y],
            #[trigger] kids[x],
        ) by {
            assert(precedes(tail, kids[y], kids[x]));
            lemma_precedes_prepend(tail, e, kids[y], kids[x]);
        }
    }
}

/// Of two elements that were inserted after the same element of a list, or both
/// at its head, the one with the greater ID comes first.
pub proof fn greater_elements_come_first(
    present: Set<ElementIDView>,
    following: Following,
    parent: ElementIDView,
    a: ElementIDView,
    b: ElementIDView,
)
    requires
        grown(present, following),
        head_or(list_order(present, following)->Done_0.to_set(), parent),
        followers(following, parent).contains(a),
        followers(following, parent).contains(b),
        b.before(a),
    ensures
        precedes(list_order(present, following)->Done_0, a, b),
{
    let kids = ascending(followers(following, parent));
    let order = list_order(present, following)->Done_0;
    lemma_ascending(followers(following, parent));
    grown_list_has_order(present, following);
    let steps = choose|steps: nat| over_after(present, following, steps);
    lemma_list_order(present, following, steps);
    assert(kids.contains(a) && kids.contains(b));
    let y = choose|y: int| 0 <= y < kids.len() && kids[y] == a;
    let x = choose|x: int| 0 <= x < kids.len() && kids[x] == b;
    let le = |p: ElementIDView, q: ElementIDView| element_le(p, q);
    assert(x < y) by {
        lemma_element_order(a, b, a);
        if x > y {
            assert(le(kids[y], kids[x]));
        }
    }
    if parent is Head {
        lemma_stack_order(present, following, walk_start(following), steps);
    } else {
        let i = choose|i: int| 0 <= i < order.len() && order[i] == parent;
        lemma_siblings(present, following, walk_start(following), steps, i);
    }
    assert(precedes(order, kids[y], kids[x]));
}

/// Of the elements that were inserted after the same element of a list, the one
/// with the greatest ID comes right after that element; of those inserted at
/// the head, it comes at the start of the list.
pub proof fn greatest_element_comes_next(
    present: Set<ElementIDView>,
    following: Following,
    parent: ElementIDView,
    a: ElementIDView,
)
    requires
        grown(present, following),
        head_or(list_order(present, following)->Done_0.to_set(), parent),
        followers(following, parent).contains(a),
        forall|x: ElementIDView|
            followers(following, parent).contains(x) ==> #[trigger] element_le(x, a),
    ensures
        ({
            let order = list_order(present, following)->Done_0;
            ||| parent is Head && order.len() > 0 && order[0] == a
            ||| exists|i: int|
                0 <= i < order.len() - 1 && #[trigger] order[i] == parent && order[i + 1] == a
        }),
{
    let kids = ascending(followers(following, parent));
    let order = list_order(present, following)->Done_0;
    lemma_ascending(followers(following, parent));
    grown_list_has_order(present, following);
    let steps = choose|steps: nat| over_after(present, following, steps);
    lemma_list_order(present, following, steps);
    let le = |p: ElementIDView, q: ElementIDView| element_le(p, q);
    assert(kids.contains(a));
    let y = choose|y: int| 0 <= y < kids.len() && kids[y] == a;
    let last = kids.last();
    assert(last == a) by {
        assert(kids.contains(last));
        assert(element_le(last, a));
        if y < kids.len() - 1 {
            assert(le(kids[y], kids[kids.len() - 1]));
        }
        lemma_element_order(a, last, a);
    }
    if !(parent is Head) {
        let i = choose|i: int| 0 <= i < order.len() && order[i] == parent;
        lemma_siblings(present, following, walk_start(following), steps, i);
        assert(order[i] == parent);
    }
}

/// Whether `x` is `a`, or was inserted after `a` in `n` steps, each of them from an
/// element to one that was inserted after it.
pub open spec fn under_in(
    following: Following,
    a: ElementIDView,
    x: ElementIDView,
    n: nat,
) -> bool
    decreases n,
{
    if n == 0 {
        x == a
    } else {
        exists|p: ElementIDView|
            under_in(following, a, p, (n - 1) as nat) && #[trigger] followers(
                following,
                p,
            ).contains(x)
    }
}

/// Whether `x` is `a`, or was inserted after `a`, directly or indirectly.
pub open spec fn under(following: Following, a: ElementIDView, x: ElementIDView) -> bool {
    exists|n: nat| under_in(following, a, x, n)
}

proof fn lemma_under_child(
    following: Following,
    a: ElementIDView,
    c: ElementIDView,
    x: ElementIDView,
    n: nat,
)
    requires
        followers(following, a).contains(c),
        under_in(following, c, x, n),
    ensures
        under_in(following, a, x, n + 1),
    decreases n,
{
    if n == 0 {
        assert(under_in(following, a, a, 0));
        assert(under_in(following, a, a, (n + 1 - 1) as nat));
    } else {
        let p = choose|p: ElementIDView|
            under_in(following, c, p, (n - 1) as nat) && #[trigger] followers(
                following,
                p,
            ).contains(x);
        lemma_under_child(following, a, c, p, (n - 1) as nat);
        assert(under_in(following, a, p, (n + 1 - 1) as nat));
    }
}

/// A walk goes through the end of what it has still to go through, and then through
/// the rest.
proof fn lemma_walk_splits(
    present: Set<ElementIDView>,
    following: Following,
    s: Seq<ElementIDView>,
    t: Seq<ElementIDView>,
    steps: nat,
)
    requires
        walk(present, following, s + t, steps) is Done,
    ensures
        walk(present, following, t, steps) is Done,
        walk(present, following, s, steps) is Done,
        walk(present, following, s + t, steps)->Done_0 == walk(
            present,
            following,
            t,
            steps,
        )->Done_0 + walk(present, following, s, steps)->Done_0,
    decreases steps,
{
    if t.len() == 0 {
        assert(s + t =~= s);
        let order = walk(present, following, s, steps)->Done_0;
        assert(Seq::<ElementIDView>::empty() + order =~= order);
    } else {
        let e = t.last();
        let all = s + t;
        let kids = ascending(followers(following, e));
        let fewer = (steps - 1) as nat;
        assert(all.last() == e);
        assert(all.drop_last() + kids =~= s + (t.drop_last() + kids));
        lemma_walk_splits(present, following, s, t.drop_last() + kids, fewer);
        lemma_walk_more(present, following, s, fewer, steps);
        let x = walk(present, following, t.drop_last() + kids, fewer)->Done_0;
        let y = walk(present, following, s, fewer)->Done_0;
        assert(seq![e] + (x + y) =~= (seq![e] + x) + y);
    }
}

/// What a walk goes through is under what it had to go through.
proof fn lemma_walk_under(
    present: Set<ElementIDView>,
    following: Following,
    stack: Seq<ElementIDView>,
    steps: nat,
    k: int,
) -> (i: int)
    requires
        walk(present, following, stack, steps) is Done,
        0 <= k < walk(present, following, stack, steps)->Done_0.len(),
    ensures
        0 <= i < stack.len(),
        under(following, stack[i], walk(present, following, stack, steps)->Done_0[k]),
    decreases steps,
{
    let e = stack.last();
    let rest = stack.drop_last();
    let kids = ascending(followers(following, e));
    let next = rest + kids;
    let tail = walk(present, following, next, (steps - 1) as nat)->Done_0;
    let order = seq![e] + tail;
    if k == 0 {
        assert(under_in(following, e, e, 0));
        stack.len() - 1
    } else {
        let j = lemma_walk_under(present, following, next, (steps - 1) as nat, k - 1);
        assert(order[k] == tail[k - 1]);
        if j < rest.len() {
            j
        } else {
            let c = kids[j - rest.len()];
            let x = order[k];
            let n = choose|n: nat| under_in(following, c, x, n);
            lemma_ascending(followers(following, e));
            assert(kids.contains(c));
            lemma_under_child(following, e, c, x, n);
            stack.len() - 1
        }
    }
}

/// What was inserted after an element that a walk goes through, it goes through too.
proof fn lemma_walk_closed(
    present: Set<ElementIDView>,
    following: Following,
    stack: Seq<ElementIDView>,
    steps: nat,
    k: int,
    c: ElementIDView,
)
    requires
        walk(present, following, stack, steps) is Done,
        0 <= k < walk(present, following, stack, steps)->Done_0.len(),
        followers(following, walk(present, following, stack, steps)->Done_0[k]).contains(c),
    ensures
        walk(present, following, stack, steps)->Done_0.contains(c),
    decreases steps,
{
    let e = stack.last();
    let rest = stack.drop_last();
    let kids = ascending(followers(following, e));
    let next = rest + kids;
    let tail = walk(present, following, next, (steps - 1) as nat)->Done_0;
    let order = seq![e] + tail;
    if k == 0 {
        lemma_ascending(followers(following, e));
        assert(kids.contains(c));
        let j = choose|j: int| 0 <= j < kids.len() && kids[j] == c;
        lemma_stack_order(present, following, next, (steps - 1) as nat);
        assert(tail.contains(next[rest.len() + j]));
    } else {
        lemma_walk_closed(present, following, next, (steps - 1) as nat, k - 1, c);
    }
    let j = choose|j: int| 0 <= j < tail.len() && tail[j] == c;
    assert(order[j + 1] == c);
}

/// A walk that starts at an element goes through all that is under it.
proof fn lemma_all_under(
    present: Set<ElementIDView>,
    following: Following,
    a: ElementIDView,
    steps: nat,
    x: ElementIDView,
    n: nat,
)
    requires
        walk(present, following, seq![a], steps) is Done,
        under_in(following, a, x, n),
    ensures
        walk(present, following, seq![a], steps)->Done_0.contains(x),
    decreases n,
{
    let order = walk(present, following, seq![a], steps)->Done_0;
    if n == 0 {
        lemma_stack_order(present, following, seq![a], steps);
        assert(order.contains(seq![a][0]));
    } else {
        let p = choose|p: ElementIDView|
            under_in(following, a, p, (n - 1) as nat) && #[trigger] followers(
                following,
                p,
            ).contains(x);
        lemma_all_under(present, following, a, steps, p, (n - 1) as nat);
        let k = choose|k: int| 0 <= k < order.len() && order[k] == p;
        lemma_walk_closed(present, following, seq![a], steps, k, x);
    }
}

/// Where a walk comes to an element, it goes through all that is under it next.
proof fn lemma_stands_together(
    present: Set<ElementIDView>,
    following: Following,
    stack: Seq<ElementIDView>,
    steps: nat,
    i: int,
) -> (r: (nat, int))
    requires
        walk(present, following, stack, steps) is Done,
        0 <= i < walk(present, following, stack, steps)->Done_0.len(),
    ensures
        ({
            let order = walk(present, following, stack, steps)->Done_0;
            let (fewer, j) = r;
            &&& i < j <= order.len()
            &&& walk(present, following, seq![order[i]], fewer) is Done
            &&& walk(present, following, seq![order[i]], fewer)->Done_0 == order.subrange(i, j)
        }),
    decreases steps,
{
    let e = stack.last();
    let rest = stack.drop_last();
    let next = rest + ascending(followers(following, e));
    let order = walk(present, following, stack, steps)->Done_0;
    let tail = walk(present, following, next, (steps - 1) as nat)->Done_0;
    assert(order == seq![e] + tail);
    if i == 0 {
        assert(stack =~= rest + seq![e]);
        lemma_walk_splits(present, following, rest, seq![e], steps);
        let own = walk(present, following, seq![e], steps)->Done_0;
        lemma_stack_order(present, following, seq![e], steps);
        assert(own.contains(seq![e][0]));
        assert(order.subrange(0, own.len() as int) =~= own);
        (steps, own.len() as int)
    } else {
        let (fewer, j) = lemma_stands_together(
            present,
            following,
            next,
            (steps - 1) as nat,
            i - 1,
        );
        assert(order.subrange(i, j + 1) =~= tail.subrange(i - 1, j));
        (fewer, j + 1)
    }
}

/// What was inserted under an element of a list, that is after it or after
/// something under it, stands right after the element, with nothing else between.
pub proof fn what_is_under_an_element_stands_together(
    present: Set<ElementIDView>,
    following: Following,
    i: int,
) -> (j: int)
    requires
        grown(present, following),
        0 <= i < list_order(present, following)->Done_0.len(),
    ensures
        ({
            let order = list_order(present, following)->Done_0;
            &&& i < j <= order.len()
            &&& forall|k: int|
                0 <= k < order.len() ==> (under(following, order[i], #[trigger] order[k]) <==> i <= k
                    < j)
            &&& forall|x: ElementIDView| #[trigger]
                under(following, order[i], x) ==> order.contains(x)
        }),
{
    let order = list_order(present, following)->Done_0;
    grown_list_has_order(present, following);
    list_holds_what_was_inserted(present, following);
    let steps = choose|steps: nat| over_after(present, following, steps);
    lemma_list_order(present, following, steps);
    let a = order[i];
    let (fewer, j) = lemma_stands_together(present, following, walk_start(following), steps, i);
    let own = order.subrange(i, j);
    assert forall|x: ElementIDView| #[trigger] under(following, a, x) implies own.contains(x) by {
        let n = choose|n: nat| under_in(following, a, x, n);
        lemma_all_under(present, following, a, fewer, x, n);
    }
    assert forall|x: ElementIDView| #[trigger] under(following, a, x) implies order.contains(x) by {
        assert(own.contains(x));
        let k = choose|k: int| 0 <= k < own.len() && own[k] == x;
        assert(order[i + k] == x);
    }
    assert forall|k: int| 0 <= k < order.len() implies (under(following, a, #[trigger] order[k])
        <==> i <= k < j) by {
        if under(following, a, order[k]) {
            assert(own.contains(order[k]));
            let l = choose|l: int| 0 <= l < own.len() && own[l] == order[k];
            assert(order[i + l] == order[k]);
        }
        if i <= k < j {
            assert(own[k - i] == order[k]);
            let l = lemma_walk_under(present, following, seq![a], fewer, k - i);
            assert(seq![a][l] == a);
        }
    }
    j
}

/// All that was inserted under an element comes before the elements with smaller
/// IDs that were inserted after the same element, or both at the head.
pub proof fn what_is_under_an_element_comes_before_smaller_siblings(
    present: Set<ElementIDView>,
    following: Following,
    parent: ElementIDView,
    a: ElementIDView,
    b: ElementIDView,
    x: ElementIDView,
)
    requires
        grown(present, following),
        head_or(list_order(present, following)->Done_0.to_set(), parent),
        followers(following, parent).contains(a),
        followers(following, parent).contains(b),
        b.before(a),
        under(following, a, x),
    ensures
        precedes(list_order(present, following)->Done_0, x, b),
{
    let order = list_order(present, following)->Done_0;
    greater_elements_come_first(present, following, parent, a, b);
    list_holds_what_was_inserted(present, following);
    let (i, k) = choose|i: int, k: int|
        0 <= i < k < order.len() && #[trigger] order[i] == a && #[trigger] order[k] == b;
    let j = what_is_under_an_element_stands_together(present, following, i);
    assert(order.contains(x));
    let l = choose|l: int| 0 <= l < order.len() && order[l] == x;
    assert(under(following, order[i], order[l]));
    assert(!under(following, a, b)) by {
        if under(following, a, b) {
            // What `b` was inserted after would be under `a`, and so not before it.
            let n = choose|n: nat| under_in(following, a, b, n);
            lemma_element_order(a, b, a);
            let p = choose|p: ElementIDView|
                under_in(following, a, p, (n - 1) as nat) && #[trigger] followers(
                    following,
                    p,
                ).contains(b);
            lemma_one_parent(present, following, p, parent, b);
            assert(under(following, a, parent));
            assert(order.contains(parent));
            let q = choose|q: int| 0 <= q < order.len() && order[q] == parent;
            assert(under(following, order[i], order[q]));
            assert(rooted(following, order.take(i).to_set(), order[i]));
            let r = choose|r: ElementIDView|
                head_or(order.take(i).to_set(), r) && #[trigger] followers(following, r).contains(
                    order[i],
                );
            lemma_one_parent(present, following, r, parent, a);
            if parent is Head {
                assert(rooted(following, order.take(q).to_set(), order[q]));
                let h = choose|h: ElementIDView|
                    head_or(order.take(q).to_set(), h) && #[trigger] followers(
                        following,
                        h,
                    ).contains(order[q]);
                lemma_one_parent(present, following, h, h, parent);
            } else {
                let before = order.take(i);
                assert(before.contains(parent));
                let s = choose|s: int| 0 <= s < before.len() && before[s] == parent;
                assert(order[s] == order[q]);
            }
        }
    }
    assert(!under(following, order[i], order[k]));
    assert(order[l] == x && order[k] == b);
}

/// Of two elements that were inserted after the same element of a list, or both at
/// its head, the one with the numerically greater counter comes first.
pub proof fn greater_counters_come_first(
    present: Set<ElementIDView>,
    following: Following,
    parent: ElementIDView,
    a: Seq<char>,
    m: u32,
    b: Seq<char>,
    n: u32,
)
    requires
        grown(present, following),
        parent == ElementIDView::Head || list_order(present, following)->Done_0.contains(parent),
        following.contains_key(parent),
        following[parent].contains(ElementIDView::SpecificElementID(a, m)),
        following[parent].contains(ElementIDView::SpecificElementID(b, n)),
        m < n,
    ensures
        precedes(
            list_order(present, following)->Done_0,
            ElementIDView::SpecificElementID(b, n),
            ElementIDView::SpecificElementID(a, m),
        ),
{
    greater_elements_come_first(
        present,
        following,
        parent,
        ElementIDView::SpecificElementID(b, n),
        ElementIDView::SpecificElementID(a, m),
    );
}

/// Of two elements with the same counter that were inserted after the same element
/// of a list, or both at its head, the one comes first whose actor has the greater
/// character where the two first differ, or goes on where the other ends.
pub proof fn later_actors_come_first(
    present: Set<ElementIDView>,
    following: Following,
    parent: ElementIDView,
    a: Seq<char>,
    b: Seq<char>,
    n: u32,
    k: int,
)
    requires
        grown(present, following),
        parent == ElementIDView::Head || list_order(present, following)->Done_0.contains(parent),
        following.contains_key(parent),
        following[parent].contains(ElementIDView::SpecificElementID(a, n)),
        following[parent].contains(ElementIDView::SpecificElementID(b, n)),
        0 <= k <= a.len(),
        k < b.len(),
        forall|i: int| 0 <= i < k ==> a[i] == b[i],
        k == a.len() || a[k] < b[k],
    ensures
        precedes(
            list_order(present, following)->Done_0,
            ElementIDView::SpecificElementID(b, n),
            ElementIDView::SpecificElementID(a, n),
        ),
{
    elements_with_one_counter_are_ordered_by_actor(a, b, n, k);
    greater_elements_come_first(
        present,
        following,
        parent,
        ElementIDView::SpecificElementID(b, n),
        ElementIDView::SpecificElementID(a, n),
    );
}

/// An element that is inserted with a counter greater than all others of the list
/// comes directly after the element that it was inserted after, or at the start of
/// the list if it was inserted at the head. The elements that were in the list stay
/// there, in the same order.
pub proof fn newest_element_comes_next(
    store: StoreView,
    s: StatesView,
    op: OpView,
    id: ObjectIDView,
    parent: ElementIDView,
    elem: u32,
)
    requires
        store.contains_key(id),
        store[id] is List,
        made_by_insertions(store[id]->List_0),
        op.op == (OperationView::Insert { list_id: id, key: parent, elem }),
        forall|actor: Seq<char>, n: u32| #[trigger]
            store[id]->List_0.insertions.contains_key(ElementIDView::SpecificElementID(actor, n))
                ==> n < elem,
        parent == ElementIDView::Head || list_order(
            store[id]->List_0.ops.dom(),
            store[id]->List_0.following,
        )->Done_0.contains(parent),
    ensures
        applied_op(store, s, op) matches Ok((after, _, _)) && after[id] is List && {
            let l = store[id]->List_0;
            let k = after[id]->List_0;
            let old_order = list_order(l.ops.dom(), l.following)->Done_0;
            let order = list_order(k.ops.dom(), k.following)->Done_0;
            let new = ElementIDView::SpecificElementID(op.actor, elem);
            &&& order.filter(|e: ElementIDView| old_order.contains(e)) == old_order
            &&& parent == ElementIDView::Head ==> order.len() > 0 && order[0] == new
            &&& parent != ElementIDView::Head ==> exists|i: int|
                0 <= i < order.len() - 1 && #[trigger] order[i] == parent && order[i + 1] == new
        },
{
    let l = store[id]->List_0;
    let new = ElementIDView::SpecificElementID(op.actor, elem);
    assert(!l.insertions.contains_key(new));
    let k = l.with_insertion(parent, op.actor, elem);
    insertion_keeps_the_order(l, parent, op.actor, elem);
    insertion_makes_the_list(l, parent, op.actor, elem);
    let order = k.order();
    let old_order = l.order();
    assert(followers(k.following, parent) == followers(l.following, parent).push(new));
    assert(followers(k.following, parent)[followers(l.following, parent).len() as int] == new);
    assert(head_or(order.to_set(), parent)) by {
        if !(parent is Head) {
            let p = |e: ElementIDView| old_order.contains(e);
            assert(order.filter(p).contains(parent));
            order.lemma_filter_contains_rev(p, parent);
        }
    }
    assert forall|x: ElementIDView|
        followers(k.following, parent).contains(x) implies #[trigger] element_le(x, new) by {
        if x != new {
            let i = choose|i: int|
                0 <= i < followers(k.following, parent).len() && followers(k.following, parent)[i]
                    == x;
            assert(followers(l.following, parent)[i] == x);
            assert(l.insertions.contains_key(followers(l.following, parent)[i]));
            match x {
                ElementIDView::SpecificElementID(actor, n) => {
                    assert(l.insertions.contains_key(
                        ElementIDView::SpecificElementID(actor, n),
                    ));
                },
                ElementIDView::Head => {},
            }
        }
    }
    greatest_element_comes_next(k.ops.dom(), k.following, parent, new);
    list_holds_what_was_inserted(k.ops.dom(), k.following);
    if parent is Head && !(order.len() > 0 && order[0] == new) {
        let i = choose|i: int|
            0 <= i < order.len() - 1 && #[trigger] order[i] == parent && order[i + 1] == new;
        assert(rooted(k.following, order.take(i).to_set(), order[i]));
        let p = choose|p: ElementIDView|
            head_or(order.take(i).to_set(), p) && #[trigger] followers(k.following, p).contains(
                order[i],
            );
        lemma_one_parent(k.ops.dom(), k.following, p, p, order[i]);
    }
}

} // verus!

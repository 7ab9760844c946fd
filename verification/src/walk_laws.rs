//! What the walk through a list finds, whatever is known of its elements.

use vstd::prelude::*;

use crate::error::ErrorView;
use crate::ids::ElementIDView;
use crate::list_order::{
    ascending, followers, lemma_ascending, list_order, missing_element, over_after, walk, walk_ends,
    walk_start, Walk,
};

verus! {

/// Whether an element was inserted after `p`.
pub open spec fn inserted_after(
    following: Map<ElementIDView, Seq<ElementIDView>>,
    p: ElementIDView,
    e: ElementIDView,
) -> bool {
    following.contains_key(p) && following[p].contains(e)
}

/// Whether an element was inserted at the head of a list, or after an element of
/// which something is known.
pub open spec fn come_upon(
    present: Set<ElementIDView>,
    following: Map<ElementIDView, Seq<ElementIDView>>,
    e: ElementIDView,
) -> bool {
    exists|p: ElementIDView|
        (p is Head || present.contains(p)) && #[trigger] inserted_after(following, p, e)
}

proof fn lemma_sorting_keeps_all(s: Seq<ElementIDView>, x: ElementIDView)
    ensures
        ascending(s).contains(x) <==> s.contains(x),
{
    lemma_ascending(s);
}

proof fn lemma_walk_finds(
    present: Set<ElementIDView>,
    following: Map<ElementIDView, Seq<ElementIDView>>,
    stack: Seq<ElementIDView>,
    steps: nat,
)
    requires
        forall|x: ElementIDView| #[trigger] stack.contains(x) ==> come_upon(present, following, x),
    ensures
        match walk(present, following, stack, steps) {
            Walk::Done(order) => {
                &&& forall|x: ElementIDView| #[trigger]
                    order.contains(x) ==> present.contains(x) && come_upon(present, following, x)
                &&& forall|x: ElementIDView| #[trigger] stack.contains(x) ==> order.contains(x)
                &&& forall|p: ElementIDView, x: ElementIDView|
                    order.contains(p) && #[trigger] inserted_after(following, p, x)
                        ==> order.contains(x)
            },
            Walk::Missing(e) => !present.contains(e) && come_upon(present, following, e),
            Walk::Unfinished => true,
        },
    decreases steps,
{
    if stack.len() > 0 && steps > 0 {
        let e = stack.last();
        assert(stack.contains(e));
        if present.contains(e) {
            let new = ascending(followers(following, e));
            let next = stack.drop_last() + new;
            assert forall|x: ElementIDView| #[trigger] next.contains(x) implies come_upon(
                present,
                following,
                x,
            ) by {
                let i = choose|i: int| 0 <= i < next.len() && next[i] == x;
                if i < stack.len() - 1 {
                    assert(stack[i] == x);
                    assert(stack.contains(x));
                } else {
                    assert(new[i - (stack.len() - 1)] == x);
                    lemma_sorting_keeps_all(followers(following, e), x);
                    assert(inserted_after(following, e, x));
                }
            }
            lemma_walk_finds(present, following, next, (steps - 1) as nat);
            if let Walk::Done(rest) = walk(present, following, next, (steps - 1) as nat) {
                let order = seq![e] + rest;
                assert(order[0] == e);
                assert forall|x: ElementIDView| #[trigger] order.contains(x) <==> x == e
                    || rest.contains(x) by {
                    if order.contains(x) {
                        let i = choose|i: int| 0 <= i < order.len() && order[i] == x;
                        if i > 0 {
                            assert(rest[i - 1] == x);
                        }
                    }
                    if rest.contains(x) {
                        let i = choose|i: int| 0 <= i < rest.len() && rest[i] == x;
                        assert(order[i + 1] == x);
                    }
                }
                assert forall|x: ElementIDView| #[trigger] stack.contains(x) implies order.contains(
                    x,
                ) by {
                    let i = choose|i: int| 0 <= i < stack.len() && stack[i] == x;
                    if i < stack.len() - 1 {
                        assert(next[i] == x);
                        assert(next.contains(x));
                    }
                }
                assert forall|p: ElementIDView, x: ElementIDView|
                    order.contains(p) && #[trigger] inserted_after(
                        following,
                        p,
                        x,
                    ) implies order.contains(x) by {
                    if p == e {
                        lemma_sorting_keeps_all(followers(following, e), x);
                        let i = choose|i: int| 0 <= i < new.len() && new[i] == x;
                        assert(next[stack.len() - 1 + i] == x);
                        assert(next.contains(x));
                    }
                }
            }
        }
    }
}

/// A list is made up if and only if something is known of all elements that are
/// come upon: those that were inserted at its head, or after an element that it
/// holds. It holds all of those, and no others. If there is one of which nothing is
/// known, that is said, and the element is named.
pub proof fn unknown_element_is_named(
    present: Set<ElementIDView>,
    following: Map<ElementIDView, Seq<ElementIDView>>,
)
    requires
        walk_ends(present, following),
    ensures
        match list_order(present, following) {
            Walk::Done(order) => {
                &&& forall|x: ElementIDView| #[trigger]
                    order.contains(x) ==> present.contains(x) && come_upon(present, following, x)
                &&& forall|x: ElementIDView| #[trigger]
                    inserted_after(following, ElementIDView::Head, x) ==> order.contains(x)
                &&& forall|p: ElementIDView, x: ElementIDView|
                    order.contains(p) && #[trigger] inserted_after(following, p, x)
                        ==> order.contains(x)
            },
            Walk::Missing(e) => {
                &&& !present.contains(e)
                &&& come_upon(present, following, e)
                &&& missing_element(e) == ErrorView::InvalidChange(
                    "Missing element ID "@ + e.shown() + " when interpreting list ops"@,
                )
            },
            Walk::Unfinished => false,
        },
{
    let steps = choose|steps: nat| over_after(present, following, steps);
    assert(over_after(present, following, steps));
    let start = walk_start(following);
    assert forall|x: ElementIDView| #[trigger] start.contains(x) <==> inserted_after(
        following,
        ElementIDView::Head,
        x,
    ) by {
        lemma_sorting_keeps_all(followers(following, ElementIDView::Head), x);
    }
    assert forall|x: ElementIDView| #[trigger] start.contains(x) implies come_upon(
        present,
        following,
        x,
    ) by {
        assert(inserted_after(following, ElementIDView::Head, x));
    }
    lemma_walk_finds(present, following, start, steps);
    if let Walk::Done(order) = list_order(present, following) {
        assert forall|x: ElementIDView| #[trigger]
            inserted_after(following, ElementIDView::Head, x) implies order.contains(x) by {
            assert(start.contains(x));
        }
    }
}

} // verus!

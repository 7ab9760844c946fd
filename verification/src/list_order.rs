//! The order of the elements of a list.
//!
//! Each element was inserted after another one, or after the head of the list.
//! An element comes right after the one it was inserted after, with all that
//! was inserted after itself; of several elements inserted after the same one,
//! the greatest element ID comes first.

use vstd::prelude::*;

use crate::assoc::AssocMap;
use crate::concurrent_operations::ConcurrentOperations;
use crate::error::{AutomergeError, ErrorView};
use crate::ids::{element_le, lemma_element_order, ElementID, ElementIDView};
use crate::text::{join, owned};

verus! {

/// What was inserted after an element.
pub open spec fn followers(
    following: Map<ElementIDView, Seq<ElementIDView>>,
    e: ElementIDView,
) -> Seq<ElementIDView> {
    if following.contains_key(e) {
        following[e]
    } else {
        Seq::empty()
    }
}

/// Element IDs in ascending order.
pub open spec fn ascending(s: Seq<ElementIDView>) -> Seq<ElementIDView> {
    s.sort_by(|a: ElementIDView, b: ElementIDView| element_le(a, b))
}

/// What a walk through a list comes to.
pub enum Walk {
    /// All elements, in order.
    Done(Seq<ElementIDView>),
    /// An element was come upon of which nothing else is known.
    Missing(ElementIDView),
    /// The walk has more steps.
    Unfinished,
}

/// The walk that still has to go through the elements of `stack`, from its end,
/// each followed by what was inserted after it; in at most `steps` steps.
pub open spec fn walk(
    present: Set<ElementIDView>,
    following: Map<ElementIDView, Seq<ElementIDView>>,
    stack: Seq<ElementIDView>,
    steps: nat,
) -> Walk
    decreases steps,
{
    if stack.len() == 0 {
        Walk::Done(Seq::empty())
    } else if steps == 0 {
        Walk::Unfinished
    } else {
        let e = stack.last();
        if !present.contains(e) {
            Walk::Missing(e)
        } else {
            let rest = walk(
                present,
                following,
                stack.drop_last() + ascending(followers(following, e)),
                (steps - 1) as nat,
            );
            match rest {
                Walk::Done(order) => Walk::Done(seq![e] + order),
                _ => rest,
            }
        }
    }
}

/// What a walk through a list starts with: what was inserted at its head.
pub open spec fn walk_start(following: Map<ElementIDView, Seq<ElementIDView>>) -> Seq<
    ElementIDView,
> {
    ascending(followers(following, ElementIDView::Head))
}

/// Whether the walk through a list is over after `steps` steps.
pub open spec fn over_after(
    present: Set<ElementIDView>,
    following: Map<ElementIDView, Seq<ElementIDView>>,
    steps: nat,
) -> bool {
    !(walk(present, following, walk_start(following), steps) is Unfinished)
}

/// Whether the walk through a list comes to an end. It does unless an element
/// follows, directly or indirectly, upon itself.
pub open spec fn walk_ends(
    present: Set<ElementIDView>,
    following: Map<ElementIDView, Seq<ElementIDView>>,
) -> bool {
    exists|steps: nat| over_after(present, following, steps)
}

/// What the walk through a whole list comes to.
pub open spec fn list_order(
    present: Set<ElementIDView>,
    following: Map<ElementIDView, Seq<ElementIDView>>,
) -> Walk {
    walk(
        present,
        following,
        walk_start(following),
        choose|steps: nat| over_after(present, following, steps),
    )
}

/// A list that grew by insertions: each element was inserted once, none of them
/// is the head, and something is known of each.
pub open spec fn grown(
    present: Set<ElementIDView>,
    following: Map<ElementIDView, Seq<ElementIDView>>,
) -> bool {
    &&& present.finite()
    &&& forall|p: ElementIDView, i: int|
        0 <= i < followers(following, p).len() ==> {
            &&& !((#[trigger] followers(following, p)[i]) is Head)
            &&& present.contains(followers(following, p)[i])
        }
    &&& forall|p: ElementIDView, i: int, q: ElementIDView, j: int|
        0 <= i < followers(following, p).len() && 0 <= j < followers(following, q).len()
            && #[trigger] followers(following, p)[i] == #[trigger] followers(following, q)[j]
            ==> p == q && i == j
}

/// A walk that is over comes to the same with more steps.
pub proof fn lemma_walk_more(
    present: Set<ElementIDView>,
    following: Map<ElementIDView, Seq<ElementIDView>>,
    stack: Seq<ElementIDView>,
    few: nat,
    many: nat,
)
    requires
        few <= many,
        !(walk(present, following, stack, few) is Unfinished),
    ensures
        walk(present, following, stack, many) == walk(present, following, stack, few),
    decreases few,
{
    if stack.len() > 0 && present.contains(stack.last()) {
        lemma_walk_more(
            present,
            following,
            stack.drop_last() + ascending(followers(following, stack.last())),
            (few - 1) as nat,
            (many - 1) as nat,
        );
    }
}

/// Whatever number of steps is enough, the walk comes to the same.
pub proof fn lemma_list_order(
    present: Set<ElementIDView>,
    following: Map<ElementIDView, Seq<ElementIDView>>,
    steps: nat,
)
    requires
        over_after(present, following, steps),
    ensures
        list_order(present, following) == walk(present, following, walk_start(following), steps),
{
    let chosen = choose|steps: nat| over_after(present, following, steps);
    if chosen <= steps {
        lemma_walk_more(present, following, walk_start(following), chosen, steps);
    } else {
        lemma_walk_more(present, following, walk_start(following), steps, chosen);
    }
}

/// The order of element IDs is one in which a list can be sorted.
pub proof fn lemma_element_le_total()
    ensures
        vstd::relations::total_ordering(
            |a: ElementIDView, b: ElementIDView| element_le(a, b),
        ),
{
    let le = |a: ElementIDView, b: ElementIDView| element_le(a, b);
    assert forall|a: ElementIDView, b: ElementIDView, c: ElementIDView| #[trigger]
        le(a, b) && #[trigger] le(b, c) implies le(a, c) by {
        lemma_element_order(a, b, c);
    }
    assert forall|a: ElementIDView, b: ElementIDView| #[trigger] le(a, b) && #[trigger]
        le(b, a) implies a == b by {
        lemma_element_order(a, b, a);
    }
    assert forall|a: ElementIDView, b: ElementIDView| #[trigger] le(a, b) || #[trigger]
        le(b, a) by {
        lemma_element_order(a, b, a);
    }
}

/// What ascending order means: the same elements, each no greater than the next.
pub proof fn lemma_ascending(s: Seq<ElementIDView>)
    ensures
        ascending(s).to_multiset() == s.to_multiset(),
        ascending(s).len() == s.len(),
        forall|x: ElementIDView| ascending(s).contains(x) <==> s.contains(x),
        vstd::relations::sorted_by(
            ascending(s),
            |a: ElementIDView, b: ElementIDView| element_le(a, b),
        ),
{
    broadcast use vstd::seq_lib::group_to_multiset_ensures;

    lemma_element_le_total();
    s.lemma_sort_by_ensures(|a: ElementIDView, b: ElementIDView| element_le(a, b));
    assert(ascending(s).to_multiset().len() == s.to_multiset().len());
    assert forall|x: ElementIDView| ascending(s).contains(x) <==> s.contains(x) by {
        assert(s.contains(x) <==> s.to_multiset().count(x) > 0);
        assert(ascending(s).contains(x) <==> ascending(s).to_multiset().count(x) > 0);
    }
}

/// Element IDs in ascending order.
fn sorted_ids(v: &Vec<ElementID>) -> (r: Vec<ElementID>)
    ensures
        r.deep_view() == ascending(v.deep_view()),
{
    let ghost le = |a: ElementIDView, b: ElementIDView| element_le(a, b);
    let ghost all = v.deep_view();
    let mut r: Vec<ElementID> = Vec::new();
    let mut i: usize = 0;
    proof {
        assert(r.deep_view() =~= all.take(0));
    }
    while i < v.len()
        invariant
            i <= v@.len(),
            all == v.deep_view(),
            le == (|a: ElementIDView, b: ElementIDView| element_le(a, b)),
            r.deep_view().to_multiset() == all.take(i as int).to_multiset(),
            vstd::relations::sorted_by(r.deep_view(), le),
        decreases v@.len() - i,
    {
        broadcast use vstd::seq_lib::group_to_multiset_ensures;

        let ghost x = all[i as int];
        let ghost before = r.deep_view();
        let mut k: usize = 0;
        while k < r.len() && r[k].is_before(&v[i])
            invariant
                i < v@.len(),
                k <= r@.len(),
                all == v.deep_view(),
                x == all[i as int],
                before == r.deep_view(),
                forall|j: int| 0 <= j < k ==> (#[trigger] before[j]).before(x),
            decreases r@.len() - k,
        {
            assert(v@[i as int].deep_view() == x);
            assert(r@[k as int].deep_view() == before[k as int]);
            k += 1;
        }
        r.insert(k, v[i].clone());
        proof {
            assert(v@[i as int].deep_view() == x);
            assert(r.deep_view() =~= before.insert(k as int, x));
            assert(all.take(i + 1) =~= all.take(i as int).push(x));
            assert(k < before.len() ==> !before[k as int].before(x)) by {
                if k < before.len() {
                    assert(before[k as int] == r@[k + 1].deep_view());
                }
            }
            let after = r.deep_view();
            assert forall|a: int, b: int| 0 <= a < b < after.len() implies #[trigger] le(
                after[a],
                after[b],
            ) by {
                if a < k && b > k {
                    assert(le(before[a], before[b - 1]));
                } else if a < k && b < k {
                    assert(le(before[a], before[b]));
                } else if a > k {
                    assert(le(before[a - 1], before[b - 1]));
                } else if a == k {
                    lemma_element_order(x, before[k as int], before[b - 1]);
                    if b - 1 > k {
                        assert(le(before[k as int], before[b - 1]));
                    }
                }
            }
        }
        i += 1;
    }
    proof {
        assert(all.take(i as int) =~= all);
        lemma_element_le_total();
        lemma_ascending(all);
        vstd::seq_lib::lemma_sorted_unique(r.deep_view(), ascending(all), le);
    }
    r
}

/// The message about an element of which nothing else is known.
pub open spec fn missing_element(e: ElementIDView) -> ErrorView {
    ErrorView::InvalidChange("Missing element ID "@ + e.shown() + " when interpreting list ops"@)
}

/// The elements of a list with their operations, in the order of the list.
/// `following` says what was inserted after each element.
pub fn list_ops_in_order<'a>(
    operations_by_elemid: &'a AssocMap<ElementID, ConcurrentOperations>,
    following: &AssocMap<ElementID, Vec<ElementID>>,
) -> (r: Result<Vec<(ElementID, &'a ConcurrentOperations)>, AutomergeError>)
    requires
        walk_ends(operations_by_elemid.deep_view().dom(), following.deep_view()),
    ensures
        match list_order(operations_by_elemid.deep_view().dom(), following.deep_view()) {
            Walk::Done(order) => {
                &&& r is Ok
                &&& r->Ok_0.deep_view() == order.map_values(
                    |e: ElementIDView| (e, operations_by_elemid.deep_view()[e]),
                )
            },
            Walk::Missing(e) => r is Err && r->Err_0.deep_view() == missing_element(e),
            Walk::Unfinished => false,
        },
{
    let ghost ops = operations_by_elemid.deep_view();
    let ghost present = ops.dom();
    let ghost fol = following.deep_view();
    let ghost pair = |e: ElementIDView| (e, ops[e]);
    let ghost total = list_order(present, fol);
    let ghost mut steps: nat = choose|steps: nat| over_after(present, fol, steps);
    let ghost mut done: Seq<ElementIDView> = Seq::empty();
    let mut ops_in_order: Vec<(ElementID, &'a ConcurrentOperations)> = Vec::new();
    let mut to_process: Vec<ElementID> = match following.get(&ElementID::Head) {
        Some(heads) => sorted_ids(heads),
        None => {
            let none: Vec<ElementID> = Vec::new();
            let r = sorted_ids(&none);
            assert(none.deep_view() =~= Seq::<ElementIDView>::empty());
            r
        },
    };
    proof {
        assert(to_process.deep_view() == walk_start(fol));
        assert(ops_in_order.deep_view() =~= done.map_values(pair));
        assert(over_after(present, fol, steps));
        if let Walk::Done(order) = total {
            assert(done + order =~= order);
        }
    }
    while to_process.len() > 0
        invariant
            ops == operations_by_elemid.deep_view(),
            present == ops.dom(),
            fol == following.deep_view(),
            pair == (|e: ElementIDView| (e, ops[e])),
            ops_in_order.deep_view() == done.map_values(pair),
            !(total is Unfinished),
            total == list_order(present, fol),
            match walk(present, fol, to_process.deep_view(), steps) {
                Walk::Done(order) => total == Walk::Done(done + order),
                w => total == w,
            },
        decreases steps,
    {
        let ghost stack = to_process.deep_view();
        let ghost e = stack.last();
        let next_element_id = to_process.pop().unwrap();
        assert(next_element_id.deep_view() == e);
        assert(to_process.deep_view() =~= stack.drop_last());
        let ops_here = match operations_by_elemid.get(&next_element_id) {
            Some(o) => o,
            None => {
                let shown = next_element_id.shown();
                let text = join(join(owned("Missing element ID "), shown.as_str()),
                    " when interpreting list ops");
                return Err(AutomergeError::InvalidChange(text));
            },
        };
        let ghost before = ops_in_order.deep_view();
        ops_in_order.push((next_element_id.clone(), ops_here));
        assert(ops_in_order.deep_view() =~= before.push(pair(e)));
        if let Some(next) = following.get(&next_element_id) {
            let mut sorted = sorted_ids(next);
            let ghost s = sorted.deep_view();
            let ghost t = to_process.deep_view();
            to_process.append(&mut sorted);
            assert(to_process.deep_view() =~= t + s);
        } else {
            proof {
                lemma_ascending(Seq::<ElementIDView>::empty());
                assert(stack.drop_last() + ascending(Seq::<ElementIDView>::empty())
                    =~= stack.drop_last());
            }
        }
        proof {
            let ghost prev = done;
            let rest = walk(present, fol, to_process.deep_view(), (steps - 1) as nat);
            assert(to_process.deep_view() == stack.drop_last() + ascending(followers(fol, e)));
            done = done.push(e);
            steps = (steps - 1) as nat;
            assert(done.map_values(pair) =~= prev.map_values(pair).push(pair(e)));
            if let Walk::Done(order) = rest {
                assert(prev + (seq![e] + order) =~= done + order);
            }
        }
    }
    assert(done + Seq::<ElementIDView>::empty() =~= done);
    Ok(ops_in_order)
}

} // verus!

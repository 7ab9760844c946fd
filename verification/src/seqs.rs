//! Facts about filtered sequences.

use vstd::prelude::*;

verus! {

/// A filter that every entry passes.
pub proof fn lemma_filter_all<A>(s: Seq<A>, p: spec_fn(A) -> bool)
    requires
        forall|i: int| 0 <= i < s.len() ==> p(#[trigger] s[i]),
    ensures
        s.filter(p) == s,
    decreases s.len(),
{
    if s.len() == 0 {
        reveal(Seq::filter);
    } else {
        let rest = s.drop_last();
        assert(s =~= rest.push(s.last()));
        rest.lemma_filter_push(s.last(), p);
        assert forall|i: int| 0 <= i < rest.len() implies p(#[trigger] rest[i]) by {
            assert(p(s[i]));
        }
        lemma_filter_all(rest, p);
    }
}

/// A filter after one that lets more through comes to that filter alone.
pub proof fn lemma_filter_twice<A>(s: Seq<A>, p: spec_fn(A) -> bool, q: spec_fn(A) -> bool)
    requires
        forall|x: A| #[trigger] q(x) ==> p(x),
    ensures
        s.filter(p).filter(q) == s.filter(q),
    decreases s.len(),
{
    if s.len() == 0 {
        reveal(Seq::filter);
        assert(s.filter(p) =~= s);
    } else {
        let rest = s.drop_last();
        let x = s.last();
        assert(s =~= rest.push(x));
        rest.lemma_filter_push(x, p);
        rest.lemma_filter_push(x, q);
        rest.filter(p).lemma_filter_push(x, q);
        lemma_filter_twice(rest, p, q);
    }
}

/// What a filtered list holds.
pub proof fn lemma_filter_holds<A>(s: Seq<A>, p: spec_fn(A) -> bool)
    ensures
        forall|x: A| #[trigger] s.filter(p).contains(x) <==> s.contains(x) && p(x),
{
    let kept = s.filter(p);
    assert forall|x: A| #[trigger] kept.contains(x) <==> s.contains(x) && p(x) by {
        if kept.contains(x) {
            s.lemma_filter_contains_rev(p, x);
            let i = choose|i: int| 0 <= i < kept.len() && kept[i] == x;
            s.lemma_filter_pred(p, i);
        }
        if s.contains(x) && p(x) {
            let i = choose|i: int| 0 <= i < s.len() && s[i] == x;
            s.lemma_filter_contains(p, i);
        }
    }
}

/// Where an entry of a filtered list comes from.
pub proof fn lemma_filter_place<A>(s: Seq<A>, p: spec_fn(A) -> bool, i: int) -> (j: int)
    requires
        0 <= i < s.filter(p).len(),
    ensures
        0 <= j < s.len(),
        s[j] == s.filter(p)[i],
        p(s[j]),
        s.take(j).filter(p) == s.filter(p).take(i),
    decreases s.len(),
{
    if s.len() == 0 {
        reveal(Seq::filter);
        0
    } else {
        let rest = s.drop_last();
        assert(s =~= rest.push(s.last()));
        rest.lemma_filter_push(s.last(), p);
        if i < rest.filter(p).len() {
            let j = lemma_filter_place(rest, p, i);
            assert(rest.take(j) =~= s.take(j));
            assert(s.filter(p).take(i) =~= rest.filter(p).take(i));
            j
        } else {
            assert(s.take(s.len() - 1) =~= rest);
            assert(s.filter(p).take(i) =~= rest.filter(p));
            s.len() - 1
        }
    }
}

/// A filter keeps what comes first first.
pub proof fn lemma_filter_pair<A>(s: Seq<A>, p: spec_fn(A) -> bool, i: int, j: int) -> (r: (
    int,
    int,
))
    requires
        0 <= i < j < s.filter(p).len(),
    ensures
        0 <= r.0 < r.1 < s.len(),
        s[r.0] == s.filter(p)[i],
        s[r.1] == s.filter(p)[j],
{
    let b = lemma_filter_place(s, p, j);
    let before = s.take(b);
    assert(before.filter(p)[i] == s.filter(p).take(j)[i]);
    let a = lemma_filter_place(before, p, i);
    assert(before[a] == s[a]);
    (a, b)
}

/// A filter that maps, where it lets an entry through, keeps what a plain filter
/// keeps.
pub proof fn lemma_filter_map<A, B>(
    s: Seq<A>,
    f: spec_fn(A) -> Option<B>,
    p: spec_fn(A) -> bool,
)
    requires
        forall|i: int| 0 <= i < s.len() ==> (f(#[trigger] s[i]) is Some <==> p(s[i])),
    ensures
        s.filter_map(f) == s.filter(p).map_values(|x: A| f(x)->Some_0),
    decreases s.len(),
{
    let g = |x: A| f(x)->Some_0;
    if s.len() == 0 {
        reveal(Seq::filter);
        assert(s.filter_map(f) =~= s.filter(p).map_values(g));
    } else {
        let rest = s.drop_last();
        let x = s.last();
        assert(s =~= rest.push(x));
        assert(f(s[s.len() - 1]) is Some <==> p(s[s.len() - 1]));
        rest.lemma_filter_push(x, p);
        assert forall|i: int| 0 <= i < rest.len() implies (f(#[trigger] rest[i]) is Some <==> p(
            rest[i],
        )) by {
            assert(f(s[i]) is Some <==> p(s[i]));
        }
        lemma_filter_map(rest, f, p);
        s.lemma_filter_map_take_succ(f, s.len() - 1);
        assert(s.take(s.len() as int) =~= s);
        assert(s.take(s.len() - 1) =~= rest);
        assert(s.filter_map(f) =~= s.filter(p).map_values(g));
    }
}

/// A filter keeps entries distinct.
pub proof fn lemma_filter_distinct<A>(s: Seq<A>, p: spec_fn(A) -> bool)
    requires
        s.no_duplicates(),
    ensures
        s.filter(p).no_duplicates(),
{
    let kept = s.filter(p);
    assert forall|i: int, j: int|
        0 <= i < kept.len() && 0 <= j < kept.len() && i != j implies kept[i] != kept[j] by {
        if i < j {
            let (a, b) = lemma_filter_pair(s, p, i, j);
            assert(s[a] != s[b]);
        } else {
            let (a, b) = lemma_filter_pair(s, p, j, i);
            assert(s[a] != s[b]);
        }
    }
}

/// Filters that agree on all entries keep the same.
pub proof fn lemma_filters_alike<A>(s: Seq<A>, p: spec_fn(A) -> bool, q: spec_fn(A) -> bool)
    requires
        forall|i: int| 0 <= i < s.len() ==> p(#[trigger] s[i]) == q(s[i]),
    ensures
        s.filter(p) == s.filter(q),
    decreases s.len(),
{
    if s.len() == 0 {
        reveal(Seq::filter);
    } else {
        let rest = s.drop_last();
        let x = s.last();
        assert(s =~= rest.push(x));
        assert(p(s[s.len() - 1]) == q(s[s.len() - 1]));
        rest.lemma_filter_push(x, p);
        rest.lemma_filter_push(x, q);
        assert forall|i: int| 0 <= i < rest.len() implies p(#[trigger] rest[i]) == q(rest[i]) by {
            assert(p(s[i]) == q(s[i]));
        }
        lemma_filters_alike(rest, p, q);
    }
}

/// Those of a list that have a property, and those that do not, are as many as the
/// list is long.
pub proof fn lemma_filter_counts<A>(s: Seq<A>, p: spec_fn(A) -> bool, q: spec_fn(A) -> bool)
    requires
        forall|x: A| #[trigger] q(x) == !p(x),
    ensures
        s.filter(p).len() + s.filter(q).len() == s.len(),
    decreases s.len(),
{
    if s.len() == 0 {
        reveal(Seq::filter);
    } else {
        let rest = s.drop_last();
        assert(s =~= rest.push(s.last()));
        lemma_filter_counts(rest, p, q);
        rest.lemma_filter_push(s.last(), p);
        rest.lemma_filter_push(s.last(), q);
    }
}

/// Nothing comes of an empty list.
pub proof fn lemma_filter_none<A>(s: Seq<A>, p: spec_fn(A) -> bool)
    requires
        s.len() == 0,
    ensures
        s.filter(p) == Seq::<A>::empty(),
        s.filter(p).reverse() == Seq::<A>::empty(),
{
    reveal(Seq::filter);
    assert(s.filter(p) =~= Seq::<A>::empty());
    assert(s.filter(p).reverse() =~= Seq::<A>::empty());
}

/// What stands last stands first in the reverse.
pub proof fn lemma_reverse_push<A>(s: Seq<A>, x: A)
    ensures
        s.push(x).reverse() == seq![x] + s.reverse(),
{
    assert(s.push(x).reverse() =~= seq![x] + s.reverse());
}

} // verus!

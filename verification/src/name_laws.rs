//! What texts name elements, and how texts and element IDs are ordered.

use vstd::prelude::*;

use crate::ids::{element_named, sole_colon, ElementIDView, ObjectIDView};
use crate::text::{
    counter_of, decimal, digit_char, digits_value, is_counter, is_digit, quoted, text_lt,
};

verus! {

/// Two texts are ordered by the first place in which they differ: the one with the
/// smaller character there comes first, or the one that ends there.
pub proof fn texts_are_ordered_by_their_first_difference(a: Seq<char>, b: Seq<char>, k: int)
    requires
        0 <= k <= a.len(),
        k < b.len(),
        forall|i: int| 0 <= i < k ==> a[i] == b[i],
        k == a.len() || a[k] < b[k],
    ensures
        text_lt(a, b),
        !text_lt(b, a),
    decreases k,
{
    if k > 0 {
        assert forall|i: int| 0 <= i < k - 1 implies a.drop_first()[i] == b.drop_first()[i] by {
            assert(a[i + 1] == b[i + 1]);
        }
        assert(a[0] == b[0]);
        texts_are_ordered_by_their_first_difference(a.drop_first(), b.drop_first(), k - 1);
    }
}

/// Elements are ordered by their counters; the head comes before all of them.
pub proof fn elements_are_ordered_by_counter(a: Seq<char>, m: u32, b: Seq<char>, n: u32)
    requires
        m < n,
    ensures
        ElementIDView::SpecificElementID(a, m).before(ElementIDView::SpecificElementID(b, n)),
        !ElementIDView::SpecificElementID(b, n).before(ElementIDView::SpecificElementID(a, m)),
        ElementIDView::Head.before(ElementIDView::SpecificElementID(a, m)),
        !ElementIDView::SpecificElementID(a, m).before(ElementIDView::Head),
{
}

/// Elements with the same counter are ordered by their actors, and these as texts:
/// by the first place in which they differ.
pub proof fn elements_with_one_counter_are_ordered_by_actor(
    a: Seq<char>,
    b: Seq<char>,
    n: u32,
    k: int,
)
    requires
        0 <= k <= a.len(),
        k < b.len(),
        forall|i: int| 0 <= i < k ==> a[i] == b[i],
        k == a.len() || a[k] < b[k],
    ensures
        ElementIDView::SpecificElementID(a, n).before(ElementIDView::SpecificElementID(b, n)),
        !ElementIDView::SpecificElementID(b, n).before(ElementIDView::SpecificElementID(a, n)),
{
    texts_are_ordered_by_their_first_difference(a, b, k);
}

/// The text that names an element: the actor, a colon and the digits.
pub open spec fn named(actor: Seq<char>, digits: Seq<char>) -> Seq<char> {
    actor + seq![':'] + digits
}

/// Whether a text holds no colon.
pub open spec fn without_colon(s: Seq<char>) -> bool {
    forall|i: int| 0 <= i < s.len() ==> #[trigger] s[i] != ':'
}

proof fn lemma_named(actor: Seq<char>, digits: Seq<char>)
    requires
        without_colon(actor),
        without_colon(digits),
    ensures
        element_named(named(actor, digits)) == match counter_of(digits) {
            Some(n) => Some(ElementIDView::SpecificElementID(actor, n)),
            None => None,
        },
{
    let s = named(actor, digits);
    let n = actor.len() as int;
    assert(s[n] == ':');
    assert forall|j: int| 0 <= j < s.len() && j != n implies s[j] != ':' by {
        if j < n {
            assert(s[j] == actor[j]);
        } else {
            assert(s[j] == digits[j - n - 1]);
        }
    }
    assert(sole_colon(s, n));
    assert(s != "_head"@) by {
        reveal_strlit("_head");
        if s == "_head"@ {
            assert("_head"@[n] == ':');
        }
    }
    let i = choose|i: int| sole_colon(s, i);
    assert(i == n);
    assert(s.take(n) =~= actor);
    assert(s.skip(n + 1) =~= digits);
}

/// The text `_head` names the head of a list.
pub proof fn underscore_head_names_the_head()
    ensures
        element_named("_head"@) == Some(ElementIDView::Head),
{
}

/// An actor, a colon and one decimal digit name the element that the actor inserted
/// with that number.
pub proof fn one_digit_names_its_number(actor: Seq<char>, c: char)
    requires
        without_colon(actor),
        '0' <= c <= '9',
    ensures
        element_named(named(actor, seq![c])) == Some(
            ElementIDView::SpecificElementID(actor, (c as u32 - '0' as u32) as u32),
        ),
{
    let one = seq![c];
    lemma_named(actor, one);
    assert(one.drop_last() =~= Seq::<char>::empty());
    assert(digits_value(one.drop_last()) == 0);
    assert(digits_value(one) == c as nat - '0' as nat);
    assert(is_counter(one));
}

/// A further decimal digit makes the number ten times as large, and adds the digit.
/// A number that does not fit 32 bits names no element.
pub proof fn further_digit_counts_tenfold(actor: Seq<char>, digits: Seq<char>, n: u32, c: char)
    requires
        without_colon(actor),
        without_colon(digits),
        element_named(named(actor, digits)) == Some(ElementIDView::SpecificElementID(actor, n)),
        '0' <= c <= '9',
    ensures
        element_named(named(actor, digits.push(c))) == if 10 * n + (c as u32 - '0' as u32)
            <= u32::MAX {
            Some(
                ElementIDView::SpecificElementID(
                    actor,
                    (10 * n + (c as u32 - '0' as u32)) as u32,
                ),
            )
        } else {
            None
        },
{
    let more = digits.push(c);
    assert(without_colon(more));
    lemma_named(actor, digits);
    lemma_named(actor, more);
    assert(more.drop_last() =~= digits);
    assert(counter_of(digits) == Some(n));
    assert forall|i: int| 0 <= i < more.len() implies is_digit(#[trigger] more[i]) by {
        if i < digits.len() {
            assert(is_digit(digits[i]));
        }
    }
    assert(digits_value(more) == 10 * digits_value(digits) + (c as nat - '0' as nat));
}

/// A number that is too large stays too large with further digits.
pub proof fn too_large_a_number_stays_too_large(
    actor: Seq<char>,
    digits: Seq<char>,
    c: char,
)
    requires
        without_colon(actor),
        digits.len() > 0,
        forall|i: int| 0 <= i < digits.len() ==> '0' <= #[trigger] digits[i] <= '9',
        element_named(named(actor, digits)) is None,
        '0' <= c <= '9',
    ensures
        element_named(named(actor, digits.push(c))) is None,
{
    let more = digits.push(c);
    assert forall|i: int| 0 <= i < more.len() implies #[trigger] more[i] != ':' by {
        if i < digits.len() {
            assert(more[i] == digits[i]);
        }
    }
    assert forall|i: int| 0 <= i < digits.len() implies #[trigger] digits[i] != ':' by {}
    lemma_named(actor, digits);
    lemma_named(actor, more);
    assert(more.drop_last() =~= digits);
    assert(forall|i: int| 0 <= i < digits.len() ==> is_digit(#[trigger] digits[i]));
    assert(digits_value(more) == 10 * digits_value(digits) + (c as nat - '0' as nat));
}

/// A text names no element if it is not `_head` and has no colon; if it has more
/// than one; if nothing comes after the colon; or if something other than a decimal
/// digit does.
pub proof fn other_texts_name_no_element(s: Seq<char>, i: int)
    requires
        s != "_head"@,
        ({
            ||| without_colon(s)
            ||| 0 <= i < s.len() - 1 && s[i] == ':' && exists|j: int|
                i < j < s.len() && !('0' <= #[trigger] s[j] <= '9')
            ||| s.len() > 0 && s.last() == ':'
        }),
    ensures
        element_named(s) is None,
{
    if exists|k: int| sole_colon(s, k) {
        let k = choose|k: int| sole_colon(s, k);
        assert(s[k] == ':');
        if s.last() == ':' {
            assert(k == s.len() - 1);
            assert(s.skip(k + 1).len() == 0);
        } else {
            assert(i == k);
            let j = choose|j: int| i < j < s.len() && !('0' <= #[trigger] s[j] <= '9');
            let rest = s.skip(k + 1);
            assert(rest[j - k - 1] == s[j]);
            assert(!is_digit(rest[j - k - 1]));
        }
    }
}

/// A number in decimal is its digits.
proof fn lemma_decimal(n: nat)
    ensures
        decimal(n).len() > 0,
        forall|i: int| 0 <= i < decimal(n).len() ==> is_digit(#[trigger] decimal(n)[i]),
        digits_value(decimal(n)) == n,
    decreases n,
{
    if n < 10 {
        let one = decimal(n);
        assert(one =~= seq![digit_char(n)]);
        assert(one.drop_last() =~= Seq::<char>::empty());
        assert(digits_value(one.drop_last()) == 0);
        assert(digit_char(n) as nat == n + '0' as nat);
    } else {
        lemma_decimal(n / 10);
        let rest = decimal(n / 10);
        let c = digit_char(n % 10);
        assert(decimal(n) == rest.push(c));
        assert(rest.push(c).drop_last() =~= rest);
        assert(c as nat == n % 10 + '0' as nat);
        assert forall|i: int| 0 <= i < decimal(n).len() implies is_digit(
            #[trigger] decimal(n)[i],
        ) by {
            if i < rest.len() {
                assert(is_digit(rest[i]));
            }
        }
    }
}

/// Every element that an actor without a colon inserted is named by the actor, a
/// colon and the counter in decimal.
pub proof fn elements_have_names(actor: Seq<char>, n: u32)
    requires
        without_colon(actor),
    ensures
        element_named(named(actor, decimal(n as nat))) == Some(
            ElementIDView::SpecificElementID(actor, n),
        ),
{
    let digits = decimal(n as nat);
    lemma_decimal(n as nat);
    assert forall|i: int| 0 <= i < digits.len() implies #[trigger] digits[i] != ':' by {
        assert(is_digit(digits[i]));
    }
    lemma_named(actor, digits);
}

/// How error messages show IDs.
pub proof fn ids_are_shown_by_their_parts(s: Seq<char>, n: u32)
    ensures
        ObjectIDView::Root.shown() == "Root"@,
        ObjectIDView::ID(s).shown() == "ID("@ + quoted(s) + ")"@,
        ElementIDView::Head.shown() == "Head"@,
        ElementIDView::SpecificElementID(s, n).shown() == "SpecificElementID(ActorID("@ + quoted(s)
            + "), "@ + decimal(n as nat) + ")"@,
{
}

} // verus!

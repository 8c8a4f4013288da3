//! What holds of texts that something is taken off.

use vstd::prelude::*;

verus! {

/// Nothing but one character.
pub open spec fn only(s: Seq<char>, c: char) -> bool {
    forall|i: int| 0 <= i < s.len() ==> #[trigger] s[i] == c
}

proof fn lemma_leading_space(s: Seq<char>) -> (before: Seq<char>)
    ensures
        crate::text::blank(before),
        before + crate::text::without_leading_space(s) == s,
        crate::text::without_leading_space(s).len() > 0 ==> !crate::text::white_space(
            crate::text::without_leading_space(s)[0],
        ),
    decreases s.len(),
{
    if s.len() > 0 && crate::text::white_space(s[0]) {
        let rest = lemma_leading_space(s.skip(1));
        let before = seq![s[0]] + rest;
        assert(before + crate::text::without_leading_space(s) =~= seq![s[0]] + s.skip(1));
        assert(seq![s[0]] + s.skip(1) =~= s);
        before
    } else {
        assert(Seq::<char>::empty() + s =~= s);
        Seq::empty()
    }
}

proof fn lemma_trailing_space(s: Seq<char>) -> (after: Seq<char>)
    ensures
        crate::text::blank(after),
        crate::text::without_trailing_space(s) + after == s,
        crate::text::without_trailing_space(s).len() > 0 ==> !crate::text::white_space(
            crate::text::without_trailing_space(s).last(),
        ),
    decreases s.len(),
{
    if s.len() > 0 && crate::text::white_space(s.last()) {
        let rest = lemma_trailing_space(s.drop_last());
        let after = rest.push(s.last());
        assert(crate::text::without_trailing_space(s) + after =~= s.drop_last().push(s.last()));
        assert(s.drop_last().push(s.last()) =~= s);
        after
    } else {
        assert(s + Seq::<char>::empty() =~= s);
        Seq::empty()
    }
}

/// What is taken off a text that is trimmed is white space, before it and after it; what is left
/// neither begins nor ends with any.
pub proof fn law_trimming_takes_white_space_only(s: Seq<char>) -> (around: (Seq<char>, Seq<char>))
    ensures
        crate::text::blank(around.0),
        crate::text::blank(around.1),
        around.0 + crate::text::trimmed(s) + around.1 == s,
        crate::text::trimmed(s).len() > 0 ==> !crate::text::white_space(crate::text::trimmed(s)[0])
            && !crate::text::white_space(crate::text::trimmed(s).last()),
{
    let before = lemma_leading_space(s);
    let inner = crate::text::without_leading_space(s);
    let after = lemma_trailing_space(inner);
    let t = crate::text::trimmed(s);
    assert(before + t + after =~= before + (t + after));
    if t.len() > 0 {
        assert((t + after)[0] == t[0]);
    }
    (before, after)
}

/// What is taken off the end of an address are slashes; what is left does not end with one.
pub proof fn law_only_slashes_are_taken(s: Seq<char>) -> (slashes: Seq<char>)
    ensures
        only(slashes, '/'),
        crate::text::without_trailing_slashes(s) + slashes == s,
        crate::text::without_trailing_slashes(s).len() > 0 ==> crate::text::without_trailing_slashes(s).last()
            != '/',
    decreases s.len(),
{
    if s.len() > 0 && s.last() == '/' {
        let rest = law_only_slashes_are_taken(s.drop_last());
        let slashes = rest.push('/');
        assert(crate::text::without_trailing_slashes(s) + slashes =~= s.drop_last().push('/'));
        assert(s.drop_last().push('/') =~= s);
        slashes
    } else {
        assert(s + Seq::<char>::empty() =~= s);
        Seq::empty()
    }
}

/// One more digit behind the digits of a number makes ten times the number and that digit; zeros
/// before them change nothing. A text spells a number only with digits, behind a plus sign or none.
pub proof fn law_digits_are_decimal(digits: Seq<char>, d: nat, max: u64)
    requires
        d < 10,
    ensures
        crate::text::number_of(digits.push(crate::text::digit(d))) == 10 * crate::text::number_of(digits) + d,
        crate::text::number_of(seq!['0'] + digits) == crate::text::number_of(digits),
        crate::text::parsed_number(digits, max) matches Some(n) ==> n <= max && digits.len() > 0 && forall|i: int|
            1 <= i < digits.len() ==> '0' <= #[trigger] digits[i] <= '9',
    decreases digits.len(),
{
    let longer = digits.push(crate::text::digit(d));
    assert(longer.drop_last() =~= digits);
    assert(crate::text::digit(d) as int == 48 + d);
    let padded = seq!['0'] + digits;
    if digits.len() == 0 {
        assert(padded =~= seq!['0']);
        assert(padded.drop_last() =~= Seq::<char>::empty());
        assert(crate::text::number_of(padded.drop_last()) == 0);
    } else {
        assert(padded.drop_last() =~= seq!['0'] + digits.drop_last());
        assert(padded.last() == digits.last());
        law_digits_are_decimal(digits.drop_last(), d, max);
    }
    if crate::text::parsed_number(digits, max) is Some {
        let rest = crate::text::without_sign(digits);
        assert forall|i: int| 1 <= i < digits.len() implies '0' <= #[trigger] digits[i] <= '9' by {
            if rest.len() == digits.len() {
                assert(crate::text::decimal_digit(rest[i]));
            } else {
                assert(crate::text::decimal_digit(rest[i - 1]));
            }
        }
    }
}

}

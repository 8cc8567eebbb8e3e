//! The decimal form of an integer is read back as the integer.

use vstd::prelude::*;
use crate::scalar::all_digits;
use crate::scalar::decimal;
use crate::scalar::digit_char;
use crate::scalar::digit_value;
use crate::scalar::digits_value;
use crate::scalar::is_white_space;
use crate::scalar::leading_space;
use crate::scalar::parse_signed;
use crate::scalar::parse_unsigned;
use crate::scalar::signed_decimal;
use crate::scalar::trailing_space;
use crate::scalar::trimmed;

verus! {

/// A digit's character is a digit of that value, and neither white space
/// nor a sign.
pub proof fn lemma_digit(d: int)
    requires
        0 <= d <= 9,
    ensures
        digit_value(digit_char(d)) == Some(d),
        !is_white_space(digit_char(d)),
        digit_char(d) != '+',
        digit_char(d) != '-',
{
}

/// The decimal form of a number is made of digits that write the number.
pub proof fn lemma_decimal(n: nat)
    ensures
        decimal(n).len() > 0,
        all_digits(decimal(n)),
        digits_value(decimal(n)) == n,
    decreases n,
{
    if n < 10 {
        lemma_digit(n as int);
        let s = decimal(n);
        assert(s.drop_last() =~= Seq::<char>::empty());
        assert(digits_value(s.drop_last()) == 0);
    } else {
        let head = decimal(n / 10);
        let d = (n % 10) as int;
        lemma_decimal(n / 10);
        lemma_digit(d);
        let s = head.push(digit_char(d));
        assert(s.drop_last() =~= head);
        assert(s.last() == digit_char(d));
        assert forall|i: int| 0 <= i < s.len() implies (#[trigger] digit_value(s[i])) is Some by {
            if i < head.len() {
                assert(s[i] == head[i]);
                assert(digit_value(head[i]) is Some);
            }
        }
        assert(digits_value(s) == digits_value(head) * 10 + d);
    }
}

/// A text that neither begins nor ends with white space is trimmed to
/// itself.
pub proof fn lemma_trimmed_same(s: Seq<char>)
    requires
        s.len() > 0,
        !is_white_space(s[0]),
        !is_white_space(s.last()),
    ensures
        trimmed(s) == s,
{
    assert(leading_space(s) == 0);
    let rest = s.skip(0);
    assert(rest =~= s);
    assert(trailing_space(rest) == 0);
    assert(rest.take(rest.len() as int) =~= s);
}

/// The decimal form of an unsigned number is read back as the number.
pub proof fn lemma_unsigned_round_trip(n: u128)
    ensures
        parse_unsigned(trimmed(decimal(n as nat))) == Some(n),
{
    let s = decimal(n as nat);
    lemma_decimal(n as nat);
    assert(digit_value(s[0]) is Some);
    assert(digit_value(s.last()) is Some);
    lemma_trimmed_same(s);
}

/// The decimal form of a signed number is read back as the number.
pub proof fn lemma_signed_round_trip(n: i128)
    ensures
        parse_signed(trimmed(signed_decimal(n as int))) == Some(n),
{
    if n >= 0 {
        let s = decimal(n as nat);
        lemma_decimal(n as nat);
        assert(digit_value(s[0]) is Some);
        assert(digit_value(s.last()) is Some);
        lemma_trimmed_same(s);
    } else {
        let digits = decimal((-n) as nat);
        let s = seq!['-'] + digits;
        lemma_decimal((-n) as nat);
        assert(s.last() == digits.last());
        assert(digit_value(digits.last()) is Some);
        assert(s[0] == '-');
        lemma_trimmed_same(s);
        assert(s.drop_first() =~= digits);
    }
}

} // verus!

//! Decimal text: the digits of integers and of length prefixes.

use crate::outside::put_u8;
use vstd::prelude::*;

verus! {

/// The byte is an ASCII digit.
pub open spec fn is_digit(b: u8) -> bool {
    48 <= b && b <= 57
}

/// The ASCII digit for `d`, where `d` is below ten.
pub open spec fn digit_byte(d: int) -> u8 {
    (48 + d) as u8
}

/// The decimal digits of `n`, most significant first, without leading zeros.
pub open spec fn decimal_text(n: nat) -> Seq<u8>
    decreases n,
{
    if n < 10 {
        seq![digit_byte(n as int)]
    } else {
        decimal_text(n / 10).push(digit_byte((n % 10) as int))
    }
}

/// The decimal text of `n`: a minus sign if `n` is negative, then the digits
/// of its magnitude.
pub open spec fn signed_decimal(n: int) -> Seq<u8> {
    if n < 0 {
        seq![45u8] + decimal_text((-n) as nat)
    } else {
        decimal_text(n as nat)
    }
}

/// The number that a sequence of ASCII digits denotes.
pub open spec fn digits_value(s: Seq<u8>) -> nat
    decreases s.len(),
{
    if s.len() == 0 {
        0
    } else {
        (digits_value(s.drop_last()) * 10 + (s.last() - 48)) as nat
    }
}

/// Every byte is an ASCII digit.
pub open spec fn all_digits(s: Seq<u8>) -> bool {
    forall|i: int| 0 <= i < s.len() ==> is_digit(#[trigger] s[i])
}

/// At least one digit, and no leading zero unless the text is `0`.
pub open spec fn canonical_digits(s: Seq<u8>) -> bool {
    &&& s.len() > 0
    &&& all_digits(s)
    &&& (s[0] == 48 ==> s.len() == 1)
}

/// The digits of a number are canonical and denote it.
pub proof fn lemma_decimal_text_value(n: nat)
    ensures
        canonical_digits(decimal_text(n)),
        digits_value(decimal_text(n)) == n,
    decreases n,
{
    if n < 10 {
        let s = decimal_text(n);
        assert(s.drop_last() =~= Seq::<u8>::empty());
        assert(digits_value(s.drop_last()) == 0);
    } else {
        lemma_decimal_text_value(n / 10);
        let t = decimal_text(n / 10);
        let s = decimal_text(n);
        assert(s.drop_last() =~= t);
        assert(s[0] == t[0]);
        if t[0] == 48 {
            assert(t.drop_last() =~= Seq::<u8>::empty());
            assert(digits_value(t.drop_last()) == 0);
            assert(digits_value(t) == 0);
        }
    }
}

/// Digits that do not start with a zero denote a positive number.
pub proof fn lemma_digits_value_positive(s: Seq<u8>)
    requires
        s.len() > 0,
        all_digits(s),
        s[0] != 48,
    ensures
        digits_value(s) > 0,
    decreases s.len(),
{
    if s.len() > 1 {
        lemma_digits_value_positive(s.drop_last());
    } else {
        assert(s.drop_last() =~= Seq::<u8>::empty());
        assert(digits_value(s.drop_last()) == 0);
    }
}

/// Canonical digits are the digits of the number that they denote.
pub proof fn lemma_digits_roundtrip(s: Seq<u8>)
    requires
        canonical_digits(s),
    ensures
        decimal_text(digits_value(s)) == s,
    decreases s.len(),
{
    let t = s.drop_last();
    if s.len() == 1 {
        assert(t =~= Seq::<u8>::empty());
        assert(digits_value(t) == 0);
        assert(decimal_text(digits_value(s)) =~= s);
    } else {
        lemma_digits_value_positive(t);
        lemma_digits_roundtrip(t);
        let v = digits_value(t);
        let d = s.last() - 48;
        assert(0 <= d < 10);
        assert((v * 10 + d) / 10 == v);
        assert((v * 10 + d) % 10 == d);
        assert(decimal_text(digits_value(s)) =~= s);
    }
}

/// One more digit multiplies the value by ten and adds the digit.
pub proof fn lemma_digits_value_step(s: Seq<u8>, k: int)
    requires
        0 <= k < s.len(),
        is_digit(s[k]),
    ensures
        digits_value(s.take(k + 1)) == digits_value(s.take(k)) * 10 + (s[k] - 48),
        digits_value(s.take(k + 1)) >= digits_value(s.take(k)),
{
    assert(s.take(k + 1).drop_last() =~= s.take(k));
}

/// A prefix of a digit sequence denotes no more than the whole.
pub proof fn lemma_digits_value_prefix(s: Seq<u8>, k: int)
    requires
        0 <= k <= s.len(),
        all_digits(s),
    ensures
        digits_value(s.take(k)) <= digits_value(s),
    decreases s.len() - k,
{
    if k < s.len() {
        lemma_digits_value_step(s, k);
        lemma_digits_value_prefix(s, k + 1);
    } else {
        assert(s.take(k) =~= s);
    }
}

/// Appends the decimal digits of `magnitude` to `buf`.
pub fn write_digits(buf: &mut Vec<u8>, magnitude: u128)
    ensures
        final(buf)@ == old(buf)@ + decimal_text(magnitude as nat),
{
    let mut reversed: Vec<u8> = Vec::new();
    let mut rest: u128 = magnitude;
    loop
        invariant_except_break
            decimal_text(magnitude as nat) == decimal_text(rest as nat) + reversed@.reverse(),
        ensures
            decimal_text(magnitude as nat) == reversed@.reverse(),
        decreases rest,
    {
        let digit: u8 = (rest % 10) as u8;
        let ghost before = reversed@;
        reversed.push(48 + digit);
        proof {
            assert(reversed@.reverse() =~= seq![digit_byte(digit as int)] + before.reverse());
            if rest >= 10 {
                assert(decimal_text(rest as nat) + before.reverse() =~= decimal_text(
                    (rest / 10) as nat,
                ) + reversed@.reverse());
            } else {
                assert(decimal_text(rest as nat) + before.reverse() =~= reversed@.reverse());
            }
        }
        if rest < 10 {
            break ;
        }
        rest = rest / 10;
    }
    let mut i: usize = reversed.len();
    while i > 0
        invariant
            i <= reversed.len(),
            buf@ == old(buf)@ + reversed@.reverse().take(reversed.len() - i),
        decreases i,
    {
        i = i - 1;
        let ghost before = buf@;
        put_u8(buf, reversed[i]);
        proof {
            let text = reversed@.reverse();
            let k = reversed.len() - i - 1;
            assert(text[k] == reversed@[i as int]);
            assert(text.take(k + 1) =~= text.take(k).push(text[k]));
            assert(buf@ =~= old(buf)@ + text.take(k + 1));
        }
    }
    proof {
        let text = reversed@.reverse();
        assert(text.take(reversed.len() as int) =~= text);
    }
}

/// Appends the decimal text of `val` to `buf`: no leading zeros, no plus sign,
/// a minus sign only for a negative number.
pub fn write_int(buf: &mut Vec<u8>, val: i128)
    ensures
        final(buf)@ == old(buf)@ + signed_decimal(val as int),
{
    if val < 0 {
        put_u8(buf, 45);
        let magnitude: u128 = if val == i128::MIN {
            (i128::MAX as u128) + 1
        } else {
            (-val) as u128
        };
        let ghost mid = buf@;
        write_digits(buf, magnitude);
        assert(buf@ =~= old(buf)@ + signed_decimal(val as int));
    } else {
        write_digits(buf, val as u128);
    }
}

} // verus!

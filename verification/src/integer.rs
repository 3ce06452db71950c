//! Integers of any magnitude.

use crate::decimal::{
    all_digits, canonical_digits, decimal_text, digits_value, is_digit, lemma_decimal_text_value,
    lemma_digits_roundtrip, lemma_digits_value_positive, lemma_digits_value_prefix,
    lemma_digits_value_step, signed_decimal, write_digits,
};
use crate::outside::{put, put_u8};
use vstd::prelude::*;
use vstd::slice::slice_subrange;
use vstd::slice::slice_to_vec;

verus! {

/// A signed integer of any magnitude.
///
/// A magnitude that fits in 64 bits is kept as a machine word; a larger one is
/// kept as its decimal digits. Each number has one representation, so two
/// integers are equal exactly when they denote the same number.
#[derive(Debug, PartialEq, Eq)]
pub struct Integer {
    negative: bool,
    word: u64,
    digits: Vec<u8>,
}

impl View for Integer {
    type V = int;

    /// The number that the integer denotes.
    closed spec fn view(&self) -> int {
        if self.negative {
            -(self.magnitude() as int)
        } else {
            self.magnitude() as int
        }
    }
}

impl Clone for Integer {
    fn clone(&self) -> (r: Self)
        ensures
            r@ == self@,
    {
        proof {
            use_type_invariant(self);
        }
        let digits = self.digits.clone();
        assert(digits@ =~= self.digits@);
        Integer { negative: self.negative, word: self.word, digits }
    }
}

impl Integer {
    closed spec fn magnitude(&self) -> nat {
        if self.digits.len() == 0 {
            self.word as nat
        } else {
            digits_value(self.digits@)
        }
    }

    #[verifier::type_invariant]
    closed spec fn well_formed(&self) -> bool {
        if self.digits.len() == 0 {
            self.word == 0 ==> !self.negative
        } else {
            &&& self.word == 0
            &&& canonical_digits(self.digits@)
            &&& digits_value(self.digits@) > u64::MAX
        }
    }

    /// The integer that denotes `value`.
    pub fn from_i64(value: i64) -> (r: Integer)
        ensures
            r@ == value,
    {
        if value >= 0 {
            Integer { negative: false, word: value as u64, digits: Vec::new() }
        } else if value == i64::MIN {
            Integer { negative: true, word: (i64::MAX as u64) + 1, digits: Vec::new() }
        } else {
            Integer { negative: true, word: (-value) as u64, digits: Vec::new() }
        }
    }

    /// The integer that canonical decimal digits denote, negated if
    /// `negative` is set. Digits that fit in a machine word are accumulated in
    /// one; on overflow the digits themselves are kept.
    pub(crate) fn from_digits(negative: bool, digits: &[u8]) -> (r: Integer)
        requires
            canonical_digits(digits@),
            negative ==> digits@[0] != 48,
        ensures
            r@ == (if negative {
                -(digits_value(digits@) as int)
            } else {
                digits_value(digits@) as int
            }),
    {
        let mut acc: u64 = 0;
        let mut i: usize = 0;
        while i < digits.len()
            invariant
                i <= digits.len(),
                canonical_digits(digits@),
                acc == digits_value(digits@.take(i as int)),
            decreases digits.len() - i,
        {
            let digit: u64 = (digits[i] - 48) as u64;
            proof {
                lemma_digits_value_step(digits@, i as int);
                lemma_digits_value_prefix(digits@, i + 1);
            }
            let next = match acc.checked_mul(10) {
                Some(tens) => tens.checked_add(digit),
                None => None,
            };
            match next {
                Some(v) => {
                    acc = v;
                },
                None => {
                    return Integer { negative, word: 0, digits: slice_to_vec(digits) };
                },
            }
            i = i + 1;
        }
        proof {
            assert(digits@.take(i as int) =~= digits@);
            if negative {
                lemma_digits_value_positive(digits@);
            }
        }
        Integer { negative, word: acc, digits: Vec::new() }
    }

    /// Reads decimal text: an optional minus sign, then digits without a
    /// leading zero; `-0` is no number's text. Returns the integer whose
    /// decimal text `text` is, if there is one.
    pub fn parse(text: &[u8]) -> (r: Option<Integer>)
        ensures
            match r {
                Some(i) => signed_decimal(i@) == text@,
                None => forall|n: int| signed_decimal(n) != text@,
            },
    {
        let negative = text.len() > 0 && text[0] == 45;
        let start: usize = if negative { 1 } else { 0 };
        let digits = slice_subrange(text, start, text.len());
        let shaped = digits.len() > 0 && !(digits[0] == 48 && (negative || digits.len() > 1));
        let mut numeric = true;
        let mut i: usize = 0;
        while numeric && i < digits.len()
            invariant
                i <= digits.len(),
                numeric ==> forall|k: int| 0 <= k < i ==> is_digit(#[trigger] digits@[k]),
                !numeric ==> !all_digits(digits@),
            decreases digits.len() - i + (if numeric { 1int } else { 0int }),
        {
            if digits[i] < 48 || digits[i] > 57 {
                numeric = false;
            } else {
                i = i + 1;
            }
        }
        if shaped && numeric {
            let r = Integer::from_digits(negative, digits);
            proof {
                lemma_digits_roundtrip(digits@);
                if negative {
                    lemma_digits_value_positive(digits@);
                    assert(text@ =~= seq![45u8] + digits@);
                } else {
                    assert(text@ =~= digits@);
                }
            }
            Some(r)
        } else {
            proof {
                assert forall|n: int| signed_decimal(n) != text@ by {
                    if signed_decimal(n) == text@ {
                        let m = (if n < 0 { -n } else { n }) as nat;
                        lemma_decimal_text_value(m);
                        if n < 0 {
                            assert(text@[0] == 45u8);
                            assert(digits@ =~= decimal_text(m));
                            if digits@[0] == 48 {
                                assert(decimal_text(m).drop_last() =~= Seq::<u8>::empty());
                                assert(digits_value(decimal_text(m).drop_last()) == 0);
                            }
                        } else {
                            assert(is_digit(decimal_text(m)[0]));
                            assert(digits@ =~= decimal_text(m));
                        }
                    }
                }
            }
            None
        }
    }

    /// The number as an `i64`, if it is in that range.
    pub fn to_i64(&self) -> (r: Option<i64>)
        ensures
            match r {
                Some(v) => v == self@,
                None => self@ < i64::MIN || self@ > i64::MAX,
            },
    {
        proof {
            use_type_invariant(self);
        }
        if self.digits.len() > 0 {
            None
        } else if !self.negative {
            if self.word <= i64::MAX as u64 {
                Some(self.word as i64)
            } else {
                None
            }
        } else if self.word <= i64::MAX as u64 {
            Some(-(self.word as i64))
        } else if self.word == (i64::MAX as u64) + 1 {
            Some(i64::MIN)
        } else {
            None
        }
    }

    /// Appends the number's decimal text to `buf`.
    pub fn write_decimal(&self, buf: &mut Vec<u8>)
        ensures
            final(buf)@ == old(buf)@ + signed_decimal(self@),
    {
        proof {
            use_type_invariant(self);
        }
        if self.negative {
            put_u8(buf, 45);
        }
        if self.digits.len() == 0 {
            write_digits(buf, self.word as u128);
        } else {
            proof {
                lemma_digits_roundtrip(self.digits@);
            }
            put(buf, self.digits.as_slice());
        }
        assert(buf@ =~= old(buf)@ + signed_decimal(self@));
    }

    /// The number's decimal text.
    pub fn to_decimal(&self) -> (text: Vec<u8>)
        ensures
            text@ == signed_decimal(self@),
    {
        let mut text: Vec<u8> = Vec::new();
        self.write_decimal(&mut text);
        assert(text@ =~= signed_decimal(self@));
        text
    }
}

} // verus!

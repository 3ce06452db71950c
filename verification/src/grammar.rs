//! The grammar that decoding accepts, as functions on byte sequences: what
//! each kind of value parses to at a given offset, or the failure that the
//! input earns there.

use crate::decimal::{all_digits, digits_value, is_digit};
use crate::error::{DecodeError, DecodeErrorKind};
use crate::order::lex_less;
use crate::value::ValueView;
use vstd::prelude::*;

verus! {

/// What parsing yields: the parsed item with the offset behind it, or a
/// failure.
pub type Parsed<T> = Result<(T, int), DecodeError>;

/// The failure of the given kind at the given offset.
pub open spec fn failure(kind: DecodeErrorKind, offset: int) -> DecodeError {
    DecodeError { kind, offset: offset as usize }
}

/// The offset of the first `byte` at or behind `from`; the length of `s` if
/// there is none.
pub open spec fn find_byte(s: Seq<u8>, from: int, byte: u8) -> int
    decreases s.len() - from,
{
    if from < 0 || from >= s.len() {
        s.len() as int
    } else if s[from] == byte {
        from
    } else {
        find_byte(s, from + 1, byte)
    }
}

/// The offset of the first byte in `from..to` that is no digit; `to` if all
/// are digits.
pub open spec fn first_non_digit(s: Seq<u8>, from: int, to: int) -> int
    decreases to - from,
{
    if from < 0 || from >= to || to > s.len() {
        to
    } else if !is_digit(s[from]) {
        from
    } else {
        first_non_digit(s, from + 1, to)
    }
}

/// An integer at offset `i`, where `s[i]` is `i`: an optional minus sign and
/// digits up to the next `e`, without a leading zero and not `-0`.
pub open spec fn parse_integer(s: Seq<u8>, i: int) -> Parsed<int> {
    let end = find_byte(s, i + 1, 101u8);
    if end >= s.len() {
        Err(failure(DecodeErrorKind::UnterminatedInteger, i))
    } else if end == i + 1 {
        Err(failure(DecodeErrorKind::EmptyInteger, i))
    } else if s[i + 1] == 45u8 {
        if s[i + 2] == 48u8 {
            Err(failure(DecodeErrorKind::NegativeZero, i + 1))
        } else if end == i + 2 {
            Err(failure(DecodeErrorKind::EmptyInteger, i))
        } else {
            let bad = first_non_digit(s, i + 2, end);
            if bad < end {
                Err(failure(DecodeErrorKind::InvalidIntegerDigit, bad))
            } else {
                Ok((-(digits_value(s.subrange(i + 2, end)) as int), end + 1))
            }
        }
    } else if s[i + 1] == 48u8 && end != i + 2 {
        Err(failure(DecodeErrorKind::IntegerLeadingZero, i + 1))
    } else {
        let bad = first_non_digit(s, i + 1, end);
        if bad < end {
            Err(failure(DecodeErrorKind::InvalidIntegerDigit, bad))
        } else {
            Ok((digits_value(s.subrange(i + 1, end)) as int, end + 1))
        }
    }
}

/// A byte string at offset `i`: a decimal length without a leading zero, a
/// colon, and that many bytes.
pub open spec fn parse_byte_string(s: Seq<u8>, i: int) -> Parsed<Seq<u8>> {
    let colon = find_byte(s, i, 58u8);
    if colon >= s.len() {
        Err(failure(DecodeErrorKind::MissingSeparator, i))
    } else if s[i] == 48u8 && colon != i + 1 {
        Err(failure(DecodeErrorKind::LengthLeadingZero, i))
    } else {
        let bad = first_non_digit(s, i, colon);
        if bad < colon || colon == i {
            Err(failure(DecodeErrorKind::InvalidLengthDigit, bad))
        } else {
            let n = digits_value(s.subrange(i, colon));
            if colon + 1 + n > s.len() {
                Err(failure(DecodeErrorKind::LengthOverrun, i))
            } else {
                Ok((s.subrange(colon + 1, colon + 1 + n), colon + 1 + n))
            }
        }
    }
}

/// A value at offset `i`, told by its first byte.
pub open spec fn parse_value(s: Seq<u8>, i: int) -> Parsed<ValueView>
    decreases s.len() - i, 0int,
{
    if i < 0 || i >= s.len() {
        Err(failure(DecodeErrorKind::UnexpectedEnd, i))
    } else if s[i] == 105u8 {
        match parse_integer(s, i) {
            Ok((n, next)) => Ok((ValueView::Integer(n), next)),
            Err(e) => Err(e),
        }
    } else if is_digit(s[i]) {
        match parse_byte_string(s, i) {
            Ok((bytes, next)) => Ok((ValueView::ByteString(bytes), next)),
            Err(e) => Err(e),
        }
    } else if s[i] == 108u8 {
        match parse_list(s, i + 1) {
            Ok((items, next)) => Ok((ValueView::List(items), next)),
            Err(e) => Err(e),
        }
    } else if s[i] == 100u8 {
        match parse_dictionary(s, i + 1, None) {
            Ok((entries, next)) => Ok((ValueView::Dictionary(entries), next)),
            Err(e) => Err(e),
        }
    } else {
        Err(failure(DecodeErrorKind::InvalidLeadByte, i))
    }
}

/// The items of a list from offset `i` up to the closing `e`.
pub open spec fn parse_list(s: Seq<u8>, i: int) -> Parsed<Seq<ValueView>>
    decreases s.len() - i, 1int,
{
    if i < 0 || i >= s.len() {
        Err(failure(DecodeErrorKind::UnterminatedList, i))
    } else if s[i] == 101u8 {
        Ok((Seq::empty(), i + 1))
    } else {
        match parse_value(s, i) {
            Err(e) => Err(e),
            Ok((item, next)) => if i < next <= s.len() {
                prepend_item(item, parse_list(s, next))
            } else {
                Err(failure(DecodeErrorKind::UnterminatedList, i))
            },
        }
    }
}

/// `rest` with `item` in front of what it parsed.
pub open spec fn prepend_item<T>(item: T, rest: Parsed<Seq<T>>) -> Parsed<Seq<T>> {
    match rest {
        Ok((items, next)) => Ok((seq![item] + items, next)),
        Err(e) => Err(e),
    }
}

/// `rest` with `front` in front of what it parsed.
pub open spec fn prepend_items<T>(front: Seq<T>, rest: Parsed<Seq<T>>) -> Parsed<Seq<T>> {
    match rest {
        Ok((items, next)) => Ok((front + items, next)),
        Err(e) => Err(e),
    }
}

/// The entries of a dictionary from offset `i` up to the closing `e`, where
/// `previous` is the key of the entry in front of offset `i`, if there is
/// one. Each key is a byte string, its value follows it, and each key comes
/// strictly behind the one before it.
pub open spec fn parse_dictionary(s: Seq<u8>, i: int, previous: Option<Seq<u8>>) -> Parsed<
    Seq<(Seq<u8>, ValueView)>,
>
    decreases s.len() - i, 1int,
{
    if i < 0 || i >= s.len() {
        Err(failure(DecodeErrorKind::UnterminatedDictionary, i))
    } else if s[i] == 101u8 {
        Ok((Seq::empty(), i + 1))
    } else {
        match parse_byte_string(s, i) {
            Err(e) => Err(e),
            Ok((key, at)) => if i < at <= s.len() {
                match parse_value(s, at) {
                    Err(e) => Err(e),
                    Ok((value, next)) => if at < next <= s.len() {
                        if previous is Some && lex_less(key, previous->0) {
                            Err(failure(DecodeErrorKind::UnsortedKeys, next))
                        } else if previous is Some && key == previous->0 {
                            Err(failure(DecodeErrorKind::DuplicateKey, next))
                        } else {
                            prepend_item((key, value), parse_dictionary(s, next, Some(key)))
                        }
                    } else {
                        Err(failure(DecodeErrorKind::UnterminatedDictionary, i))
                    },
                }
            } else {
                Err(failure(DecodeErrorKind::UnterminatedDictionary, i))
            },
        }
    }
}

/// A whole buffer: one value that fills it.
pub open spec fn parse_document(s: Seq<u8>) -> Result<ValueView, DecodeError> {
    if s.len() == 0 {
        Err(failure(DecodeErrorKind::EmptyInput, 0))
    } else {
        match parse_value(s, 0) {
            Err(e) => Err(e),
            Ok((value, next)) => if next == s.len() {
                Ok(value)
            } else {
                Err(failure(DecodeErrorKind::TrailingData, next))
            },
        }
    }
}

/// Where `find_byte` points: at the first `byte` at or behind `from`.
pub proof fn lemma_find_byte(s: Seq<u8>, from: int, byte: u8)
    requires
        0 <= from <= s.len(),
    ensures
        from <= find_byte(s, from, byte) <= s.len(),
        find_byte(s, from, byte) < s.len() ==> s[find_byte(s, from, byte)] == byte,
        forall|k: int| from <= k < find_byte(s, from, byte) ==> s[k] != byte,
    decreases s.len() - from,
{
    if from < s.len() && s[from] != byte {
        lemma_find_byte(s, from + 1, byte);
    }
}

/// Where `first_non_digit` points: at the first byte of the range that is no
/// digit.
pub proof fn lemma_first_non_digit(s: Seq<u8>, from: int, to: int)
    requires
        0 <= from <= to <= s.len(),
    ensures
        from <= first_non_digit(s, from, to) <= to,
        first_non_digit(s, from, to) < to ==> !is_digit(s[first_non_digit(s, from, to)]),
        forall|k: int| from <= k < first_non_digit(s, from, to) ==> is_digit(s[k]),
        first_non_digit(s, from, to) == to ==> all_digits(s.subrange(from, to)),
    decreases to - from,
{
    if from < to && is_digit(s[from]) {
        lemma_first_non_digit(s, from + 1, to);
    }
}

} // verus!

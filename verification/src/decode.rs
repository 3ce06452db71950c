//! Decoding: from bytes to a value, by the grammar's rules and no others.

use crate::decimal::{
    all_digits, canonical_digits, digits_value, lemma_digits_value_prefix,
    lemma_digits_value_step,
};
use crate::encoding::{canonical, encoding};
use crate::error::{DecodeError, DecodeErrorKind};
use crate::grammar::{
    find_byte, first_non_digit, lemma_find_byte, lemma_first_non_digit, parse_byte_string,
    parse_dictionary, parse_document, parse_integer, parse_list, parse_value, prepend_items,
};
use crate::integer::Integer;
use crate::laws::lemma_decode_then_encode;
use crate::order::{compare_bytes, KeyOrder};
use crate::value::{Value, ValueView};
use vstd::prelude::*;
use vstd::slice::slice_subrange;
use vstd::slice::slice_to_vec;

verus! {

/// Decodes a buffer that holds exactly one Bencode value in canonical form.
///
/// The result is what the grammar assigns to the buffer: the value, or the
/// first failure with its offset. A value that is returned is in canonical
/// form, and the buffer is its encoding.
pub fn bdecode(b: &[u8]) -> (r: Result<Value, DecodeError>)
    ensures
        match parse_document(b@) {
            Ok(v) => r is Ok && r->Ok_0@ == v,
            Err(e) => r is Err && r->Err_0 == e,
        },
        r is Ok ==> canonical(r->Ok_0@) && encoding(r->Ok_0@) == b@,
{
    proof {
        if parse_document(b@) is Ok {
            lemma_decode_then_encode(b@);
        }
    }
    let size = b.len();
    if size == 0 {
        return Err(DecodeError { kind: DecodeErrorKind::EmptyInput, offset: 0 });
    }
    let mut ctx = Decoder { bytes: b, index: 0 };
    match ctx.decode_any() {
        Ok(value) => {
            if ctx.index != size {
                return Err(DecodeError { kind: DecodeErrorKind::TrailingData, offset: ctx.index });
            }
            Ok(value)
        },
        Err(err) => Err(err),
    }
}

/// The offset of the first `byte` at or behind `from`, or the length of
/// `bytes`.
fn find(bytes: &[u8], from: usize, byte: u8) -> (at: usize)
    requires
        from <= bytes.len(),
    ensures
        at == find_byte(bytes@, from as int, byte),
        from <= at <= bytes.len(),
{
    let mut i = from;
    while i < bytes.len() && bytes[i] != byte
        invariant
            from <= i <= bytes.len(),
            find_byte(bytes@, from as int, byte) == find_byte(bytes@, i as int, byte),
        decreases bytes.len() - i,
    {
        i = i + 1;
    }
    i
}

/// The offset of the first byte in `from..to` that is no digit, or `to`.
fn scan_digits(bytes: &[u8], from: usize, to: usize) -> (at: usize)
    requires
        from <= to <= bytes.len(),
    ensures
        at == first_non_digit(bytes@, from as int, to as int),
        from <= at <= to,
{
    let mut i = from;
    while i < to && 48 <= bytes[i] && bytes[i] <= 57
        invariant
            from <= i <= to <= bytes.len(),
            first_non_digit(bytes@, from as int, to as int) == first_non_digit(
                bytes@,
                i as int,
                to as int,
            ),
        decreases to - i,
    {
        i = i + 1;
    }
    i
}

/// A cursor into the buffer that is being decoded.
struct Decoder<'a> {
    bytes: &'a [u8],
    index: usize,
}

impl<'a> Decoder<'a> {
    /// The byte under the cursor.
    fn current_byte(&self) -> (r: Result<u8, DecodeError>)
        ensures
            match r {
                Ok(byte) => self.index < self.bytes.len() && byte == self.bytes[self.index as int],
                Err(e) => self.index >= self.bytes.len() && e == (DecodeError {
                    kind: DecodeErrorKind::UnexpectedEnd,
                    offset: self.index,
                }),
            },
    {
        if self.index < self.bytes.len() {
            Ok(self.bytes[self.index])
        } else {
            Err(DecodeError { kind: DecodeErrorKind::UnexpectedEnd, offset: self.index })
        }
    }

    /// Decodes the value under the cursor and moves the cursor behind it.
    fn decode_any(&mut self) -> (r: Result<Value, DecodeError>)
        requires
            old(self).index <= old(self).bytes.len(),
        ensures
            final(self).bytes == old(self).bytes,
            match parse_value(old(self).bytes@, old(self).index as int) {
                Ok((v, next)) => {
                    &&& r is Ok
                    &&& r->Ok_0@ == v
                    &&& final(self).index == next
                    &&& old(self).index < next <= old(self).bytes.len()
                },
                Err(e) => r is Err && r->Err_0 == e,
            },
        decreases old(self).bytes.len() - old(self).index, 0int,
    {
        let byte = match self.current_byte() {
            Ok(byte) => byte,
            Err(e) => {
                return Err(e);
            },
        };
        if byte == 105 {
            self.decode_int()
        } else if 48 <= byte && byte <= 57 {
            match self.decode_bytes() {
                Ok(bytes) => Ok(Value::ByteString(slice_to_vec(bytes))),
                Err(e) => Err(e),
            }
        } else if byte == 108 {
            self.decode_list()
        } else if byte == 100 {
            self.decode_dict()
        } else {
            Err(DecodeError { kind: DecodeErrorKind::InvalidLeadByte, offset: self.index })
        }
    }

    /// Decodes the byte string under the cursor and moves the cursor behind
    /// it. The bytes are handed out as a part of the buffer.
    #[verifier::loop_isolation(false)]
    fn decode_bytes(&mut self) -> (r: Result<&'a [u8], DecodeError>)
        requires
            old(self).index < old(self).bytes.len(),
        ensures
            final(self).bytes == old(self).bytes,
            match parse_byte_string(old(self).bytes@, old(self).index as int) {
                Ok((bytes, next)) => {
                    &&& r is Ok
                    &&& r->Ok_0@ == bytes
                    &&& final(self).index == next
                    &&& old(self).index < next <= old(self).bytes.len()
                },
                Err(e) => r is Err && r->Err_0 == e,
            },
    {
        let start = self.index;
        let index_sep = find(self.bytes, start, 58);
        if index_sep >= self.bytes.len() {
            return Err(DecodeError { kind: DecodeErrorKind::MissingSeparator, offset: start });
        }
        if self.bytes[start] == 48 && start + 1 != index_sep {
            return Err(DecodeError { kind: DecodeErrorKind::LengthLeadingZero, offset: start });
        }
        let bad = scan_digits(self.bytes, start, index_sep);
        if bad < index_sep || index_sep == start {
            return Err(DecodeError { kind: DecodeErrorKind::InvalidLengthDigit, offset: bad });
        }
        proof {
            lemma_first_non_digit(self.bytes@, start as int, index_sep as int);
        }
        let ghost prefix = self.bytes@.subrange(start as int, index_sep as int);
        let available: usize = self.bytes.len() - index_sep - 1;
        let mut len: usize = 0;
        let mut i: usize = start;
        while i < index_sep
            invariant
                start <= i <= index_sep < self.bytes.len(),
                prefix == self.bytes@.subrange(start as int, index_sep as int),
                all_digits(prefix),
                len == digits_value(prefix.take(i - start)),
                len <= available,
                available == self.bytes.len() - index_sep - 1,
            decreases index_sep - i,
        {
            proof {
                assert(prefix[i - start] == self.bytes@[i as int]);
                lemma_digits_value_step(prefix, i - start);
                lemma_digits_value_prefix(prefix, i - start + 1);
            }
            let digit: usize = (self.bytes[i] - 48) as usize;
            if digit > available || len > (available - digit) / 10 {
                return Err(DecodeError { kind: DecodeErrorKind::LengthOverrun, offset: start });
            }
            len = len * 10 + digit;
            i = i + 1;
        }
        proof {
            assert(prefix.take(index_sep - start) =~= prefix);
        }
        let bytes_start: usize = index_sep + 1;
        let bytes_end: usize = bytes_start + len;
        self.index = bytes_end;
        Ok(slice_subrange(self.bytes, bytes_start, bytes_end))
    }

    /// Decodes the integer under the cursor and moves the cursor behind it.
    fn decode_int(&mut self) -> (r: Result<Value, DecodeError>)
        requires
            old(self).index < old(self).bytes.len(),
        ensures
            final(self).bytes == old(self).bytes,
            match parse_integer(old(self).bytes@, old(self).index as int) {
                Ok((n, next)) => {
                    &&& r is Ok
                    &&& r->Ok_0@ == ValueView::Integer(n)
                    &&& final(self).index == next
                    &&& old(self).index < next <= old(self).bytes.len()
                },
                Err(e) => r is Err && r->Err_0 == e,
            },
    {
        let start = self.index;
        let index_e = find(self.bytes, start + 1, 101);
        if index_e >= self.bytes.len() {
            return Err(DecodeError { kind: DecodeErrorKind::UnterminatedInteger, offset: start });
        }
        if index_e == start + 1 {
            return Err(DecodeError { kind: DecodeErrorKind::EmptyInteger, offset: start });
        }
        let negative = self.bytes[start + 1] == 45;
        let mut num_start = start + 1;
        if negative {
            proof {
                lemma_find_byte(self.bytes@, start + 1, 101u8);
            }
            if self.bytes[start + 2] == 48 {
                return Err(DecodeError { kind: DecodeErrorKind::NegativeZero, offset: start + 1 });
            }
            if index_e == start + 2 {
                return Err(DecodeError { kind: DecodeErrorKind::EmptyInteger, offset: start });
            }
            num_start = start + 2;
        } else if self.bytes[start + 1] == 48 && index_e != start + 2 {
            return Err(
                DecodeError { kind: DecodeErrorKind::IntegerLeadingZero, offset: start + 1 },
            );
        }
        let bad = scan_digits(self.bytes, num_start, index_e);
        if bad < index_e {
            return Err(DecodeError { kind: DecodeErrorKind::InvalidIntegerDigit, offset: bad });
        }
        let digits = slice_subrange(self.bytes, num_start, index_e);
        proof {
            lemma_first_non_digit(self.bytes@, num_start as int, index_e as int);
            assert(digits@[0] == self.bytes@[num_start as int]);
            assert(canonical_digits(digits@));
        }
        let n = Integer::from_digits(negative, digits);
        self.index = index_e + 1;
        Ok(Value::Integer(n))
    }

    /// Decodes the list under the cursor and moves the cursor behind it.
    fn decode_list(&mut self) -> (r: Result<Value, DecodeError>)
        requires
            old(self).index < old(self).bytes.len(),
        ensures
            final(self).bytes == old(self).bytes,
            match parse_list(old(self).bytes@, old(self).index + 1) {
                Ok((items, next)) => {
                    &&& r is Ok
                    &&& r->Ok_0@ == ValueView::List(items)
                    &&& final(self).index == next
                    &&& old(self).index < next <= old(self).bytes.len()
                },
                Err(e) => r is Err && r->Err_0 == e,
            },
        decreases old(self).bytes.len() - old(self).index - 1, 1int,
    {
        self.index = self.index + 1;
        let mut l: Vec<Value> = Vec::new();
        let ghost start = self.index as int;
        let ghost mut views: Seq<ValueView> = Seq::empty();
        proof {
            assert(prepend_items(views, parse_list(self.bytes@, start)) == parse_list(
                self.bytes@,
                start,
            )) by {
                match parse_list(self.bytes@, start) {
                    Ok((items, next)) => {
                        assert(views + items =~= items);
                    },
                    Err(e) => {},
                }
            }
        }
        while self.index < self.bytes.len() && self.bytes[self.index as usize] != 101
            invariant
                self.bytes == old(self).bytes,
                start == old(self).index + 1,
                start <= self.index <= self.bytes.len(),
                views.len() == l.len(),
                forall|k: int| 0 <= k < l.len() ==> (#[trigger] l[k])@ == views[k],
                parse_list(self.bytes@, start) == prepend_items(
                    views,
                    parse_list(self.bytes@, self.index as int),
                ),
            decreases self.bytes.len() - self.index,
        {
            let ghost at = self.index as int;
            let item = match self.decode_any() {
                Ok(item) => item,
                Err(e) => {
                    return Err(e);
                },
            };
            proof {
                let rest = parse_list(self.bytes@, self.index as int);
                assert(prepend_items(views, parse_list(self.bytes@, at)) == prepend_items(
                    views.push(item@),
                    rest,
                )) by {
                    match rest {
                        Ok((items, next)) => {
                            assert(views + (seq![item@] + items) =~= views.push(item@) + items);
                        },
                        Err(e) => {},
                    }
                }
                views = views.push(item@);
            }
            l.push(item);
        }
        if self.index >= self.bytes.len() {
            return Err(DecodeError { kind: DecodeErrorKind::UnterminatedList, offset: self.index });
        }
        self.index = self.index + 1;
        let value = Value::List(l);
        proof {
            assert(views + Seq::<ValueView>::empty() =~= views);
            assert(value@->List_0 =~= views);
        }
        Ok(value)
    }

    /// Decodes the dictionary under the cursor and moves the cursor behind
    /// it. A key that does not come strictly behind the key in front of it
    /// fails the dictionary.
    fn decode_dict(&mut self) -> (r: Result<Value, DecodeError>)
        requires
            old(self).index < old(self).bytes.len(),
        ensures
            final(self).bytes == old(self).bytes,
            match parse_dictionary(old(self).bytes@, old(self).index + 1, None) {
                Ok((entries, next)) => {
                    &&& r is Ok
                    &&& r->Ok_0@ == ValueView::Dictionary(entries)
                    &&& final(self).index == next
                    &&& old(self).index < next <= old(self).bytes.len()
                },
                Err(e) => r is Err && r->Err_0 == e,
            },
        decreases old(self).bytes.len() - old(self).index - 1, 1int,
    {
        self.index = self.index + 1;
        let mut d: Vec<(Vec<u8>, Value)> = Vec::new();
        let ghost start = self.index as int;
        let ghost mut views: Seq<(Seq<u8>, ValueView)> = Seq::empty();
        proof {
            assert(prepend_items(views, parse_dictionary(self.bytes@, start, None))
                == parse_dictionary(self.bytes@, start, None)) by {
                match parse_dictionary(self.bytes@, start, None) {
                    Ok((entries, next)) => {
                        assert(views + entries =~= entries);
                    },
                    Err(e) => {},
                }
            }
        }
        while self.index < self.bytes.len() && self.bytes[self.index as usize] != 101
            invariant
                self.bytes == old(self).bytes,
                start == old(self).index + 1,
                start <= self.index <= self.bytes.len(),
                views.len() == d.len(),
                forall|k: int|
                    0 <= k < d.len() ==> (#[trigger] d[k]).0@ == views[k].0 && d[k].1@
                        == views[k].1,
                parse_dictionary(self.bytes@, start, None) == prepend_items(
                    views,
                    parse_dictionary(
                        self.bytes@,
                        self.index as int,
                        if views.len() == 0 {
                            None
                        } else {
                            Some(views.last().0)
                        },
                    ),
                ),
            decreases self.bytes.len() - self.index,
        {
            let ghost at = self.index as int;
            let ghost previous = if views.len() == 0 {
                None
            } else {
                Some(views.last().0)
            };
            let key = match self.decode_bytes() {
                Ok(key) => key,
                Err(e) => {
                    return Err(e);
                },
            };
            let value = match self.decode_any() {
                Ok(value) => value,
                Err(e) => {
                    return Err(e);
                },
            };
            if d.len() > 0 {
                match compare_bytes(d[d.len() - 1].0.as_slice(), key) {
                    KeyOrder::Greater => {
                        return Err(
                            DecodeError { kind: DecodeErrorKind::UnsortedKeys, offset: self.index },
                        );
                    },
                    KeyOrder::Equal => {
                        return Err(
                            DecodeError { kind: DecodeErrorKind::DuplicateKey, offset: self.index },
                        );
                    },
                    KeyOrder::Less => {},
                }
            }
            proof {
                let rest = parse_dictionary(self.bytes@, self.index as int, Some(key@));
                let entry = (key@, value@);
                assert(prepend_items(views, parse_dictionary(self.bytes@, at, previous))
                    == prepend_items(views.push(entry), rest)) by {
                    match rest {
                        Ok((entries, next)) => {
                            assert(views + (seq![entry] + entries) =~= views.push(entry)
                                + entries);
                        },
                        Err(e) => {},
                    }
                }
                views = views.push(entry);
            }
            d.push((slice_to_vec(key), value));
        }
        if self.index >= self.bytes.len() {
            return Err(
                DecodeError { kind: DecodeErrorKind::UnterminatedDictionary, offset: self.index },
            );
        }
        self.index = self.index + 1;
        let value = Value::Dictionary(d);
        proof {
            assert(views + Seq::<(Seq<u8>, ValueView)>::empty() =~= views);
            assert(value@->Dictionary_0 =~= views);
        }
        Ok(value)
    }
}

} // verus!

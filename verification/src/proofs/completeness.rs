//! Decoding is complete: where the encoding of a value in canonical form
//! stands, that value parses.

use crate::decimal::{decimal_text, digits_value, is_digit, lemma_decimal_text_value};
use crate::encoding::{
    ascending_keys, canonical, encoded_entries, encoding, entries_encoding, integer_encoding,
    lemma_encoded_entries, lemma_entries_encoding_concat, lemma_list_encoding_concat,
    lemma_sort_entries_of_ascending, list_encoding, string_encoding,
};
use crate::error::DecodeError;
use crate::grammar::{
    find_byte, first_non_digit, parse_byte_string, parse_dictionary, parse_integer, parse_list,
    parse_value,
};
use crate::integer::Integer;
use crate::order::{lemma_lex_less_asymmetric, lemma_lex_less_irreflexive, lex_less};
use crate::value::ValueView;
use vstd::prelude::*;

verus! {

/// `find_byte` points at a byte that is the first of its kind from `from`
/// on.
pub proof fn lemma_find_byte_at(s: Seq<u8>, from: int, byte: u8, at: int)
    requires
        0 <= from <= at < s.len(),
        s[at] == byte,
        forall|k: int| from <= k < at ==> s[k] != byte,
    ensures
        find_byte(s, from, byte) == at,
    decreases at - from,
{
    if from < at {
        lemma_find_byte_at(s, from + 1, byte, at);
    }
}

/// A range of digits holds no byte that is no digit.
pub proof fn lemma_first_non_digit_none(s: Seq<u8>, from: int, to: int)
    requires
        0 <= from <= to <= s.len(),
        forall|k: int| from <= k < to ==> is_digit(s[k]),
    ensures
        first_non_digit(s, from, to) == to,
    decreases to - from,
{
    if from < to {
        lemma_first_non_digit_none(s, from + 1, to);
    }
}

/// The encoding of a value starts with the byte that tells its kind, and is
/// at least two bytes long.
pub proof fn lemma_encoding_lead(v: ValueView)
    ensures
        encoding(v).len() >= 2,
        match v {
            ValueView::Integer(_) => encoding(v)[0] == 105u8,
            ValueView::ByteString(_) => is_digit(encoding(v)[0]),
            ValueView::List(_) => encoding(v)[0] == 108u8,
            ValueView::Dictionary(_) => encoding(v)[0] == 100u8,
        },
{
    match v {
        ValueView::Integer(n) => {
            let m = (if n < 0 {
                -n
            } else {
                n
            }) as nat;
            lemma_decimal_text_value(m);
        },
        ValueView::ByteString(bytes) => {
            lemma_decimal_text_value(bytes.len());
            let digits = decimal_text(bytes.len());
            assert(encoding(v)[0] == digits[0]);
        },
        ValueView::List(_) => {},
        ValueView::Dictionary(_) => {},
    }
}

/// Where the encoding of an integer stands, that integer parses.
pub proof fn lemma_parse_integer_complete(s: Seq<u8>, i: int, n: int)
    requires
        0 <= i,
        i + integer_encoding(n).len() <= s.len(),
        s.subrange(i, i + integer_encoding(n).len()) == integer_encoding(n),
    ensures
        parse_integer(s, i) == Ok::<(int, int), DecodeError>(
            (n, i + integer_encoding(n).len()),
        ),
{
    let text = integer_encoding(n);
    let m = (if n < 0 {
        -n
    } else {
        n
    }) as nat;
    let digits = decimal_text(m);
    lemma_decimal_text_value(m);
    let end = i + text.len() - 1;
    let start = if n < 0 {
        i + 2
    } else {
        i + 1
    };
    assert forall|k: int| i <= k < i + text.len() implies s[k] == text[k - i] by {
        assert(s.subrange(i, i + text.len())[k - i] == s[k]);
    }
    assert(text[text.len() - 1] == 101u8);
    assert(end - start == digits.len());
    assert forall|k: int| start <= k < end implies s[k] == digits[k - start] by {
        assert(s[k] == text[k - i]);
    }
    if n < 0 {
        assert(s[i + 1] == text[1]);
        assert(text[1] == 45u8);
    }
    assert forall|k: int| i + 1 <= k < end implies s[k] != 101u8 by {
        if k >= start {
            assert(is_digit(digits[k - start]));
        }
    }
    lemma_find_byte_at(s, i + 1, 101u8, end);
    assert forall|k: int| start <= k < end implies is_digit(s[k]) by {
        assert(is_digit(digits[k - start]));
    }
    lemma_first_non_digit_none(s, start, end);
    assert(s.subrange(start, end) =~= digits);
    assert(s[start] == digits[0]);
    if n < 0 {
        if digits[0] == 48u8 {
            assert(digits.drop_last() =~= Seq::<u8>::empty());
            assert(digits_value(digits.drop_last()) == 0);
        }
    } else {
        assert(is_digit(s[i + 1]));
    }
}

/// Where the encoding of a byte string stands, that byte string parses.
pub proof fn lemma_parse_byte_string_complete(s: Seq<u8>, i: int, bytes: Seq<u8>)
    requires
        0 <= i,
        i + string_encoding(bytes).len() <= s.len(),
        s.subrange(i, i + string_encoding(bytes).len()) == string_encoding(bytes),
    ensures
        parse_byte_string(s, i) == Ok::<(Seq<u8>, int), DecodeError>(
            (bytes, i + string_encoding(bytes).len()),
        ),
        is_digit(s[i]),
{
    let text = string_encoding(bytes);
    let digits = decimal_text(bytes.len());
    lemma_decimal_text_value(bytes.len());
    let colon = i + digits.len();
    assert forall|k: int| i <= k < i + text.len() implies s[k] == text[k - i] by {
        assert(s.subrange(i, i + text.len())[k - i] == s[k]);
    }
    assert(text[digits.len() as int] == 58u8);
    assert forall|k: int| i <= k < colon implies s[k] == digits[k - i] by {
        assert(s[k] == text[k - i]);
    }
    assert forall|k: int| i <= k < colon implies s[k] != 58u8 && is_digit(s[k]) by {
        assert(is_digit(digits[k - i]));
    }
    lemma_find_byte_at(s, i, 58u8, colon);
    lemma_first_non_digit_none(s, i, colon);
    assert(s.subrange(i, colon) =~= digits);
    assert(s[i] == digits[0]);
    assert(s.subrange(colon + 1, colon + 1 + bytes.len()) =~= bytes) by {
        assert forall|k: int| 0 <= k < bytes.len() implies s[colon + 1 + k] == bytes[k] by {
            assert(s[colon + 1 + k] == text[colon + 1 + k - i]);
        }
    }
}

/// The text of a list is the text of its first item, then the text of the
/// others.
pub proof fn lemma_list_encoding_first(items: Seq<ValueView>)
    requires
        items.len() > 0,
    ensures
        list_encoding(items) == encoding(items[0]) + list_encoding(items.skip(1)),
{
    let head = seq![items[0]];
    assert(items =~= head + items.skip(1));
    lemma_list_encoding_concat(head, items.skip(1));
    assert(head.drop_last() =~= Seq::<ValueView>::empty());
    assert(head.last() == items[0]);
    assert(list_encoding(Seq::<ValueView>::empty()) =~= Seq::<u8>::empty());
    assert(list_encoding(head) =~= encoding(items[0]));
}

/// The text of entries is the text of the first entry, then the text of the
/// others.
pub proof fn lemma_entries_encoding_first(entries: Seq<(Seq<u8>, ValueView)>)
    requires
        entries.len() > 0,
    ensures
        entries_encoding(encoded_entries(entries)) == string_encoding(entries[0].0) + encoding(
            entries[0].1,
        ) + entries_encoding(encoded_entries(entries.skip(1))),
{
    let rest = entries.skip(1);
    lemma_encoded_entries(entries);
    lemma_encoded_entries(rest);
    let head = seq![(entries[0].0, encoding(entries[0].1))];
    assert(encoded_entries(entries) =~= head + encoded_entries(rest)) by {
        assert forall|k: int| 0 <= k < entries.len() implies encoded_entries(entries)[k] == (head
            + encoded_entries(rest))[k] by {
            if k > 0 {
                assert(entries[k] == rest[k - 1]);
            }
        }
    }
    lemma_entries_encoding_concat(head, encoded_entries(rest));
    assert(head.drop_last() =~= Seq::<(Seq<u8>, Seq<u8>)>::empty());
    assert(head.last() == (entries[0].0, encoding(entries[0].1)));
    assert(entries_encoding(Seq::<(Seq<u8>, Seq<u8>)>::empty()) =~= Seq::<u8>::empty());
    assert(entries_encoding(head) =~= string_encoding(entries[0].0) + encoding(entries[0].1));
}

/// The encoding of a dictionary in canonical form holds its entries in the
/// order of the value.
pub proof fn lemma_canonical_dictionary_encoding(entries: Seq<(Seq<u8>, ValueView)>)
    requires
        ascending_keys(entries),
    ensures
        encoding(ValueView::Dictionary(entries)) == seq![100u8] + entries_encoding(
            encoded_entries(entries),
        ) + seq![101u8],
{
    let texts = encoded_entries(entries);
    lemma_encoded_entries(entries);
    assert(ascending_keys(texts)) by {
        assert forall|a: int, b: int| 0 <= a < b < texts.len() implies lex_less(
            #[trigger] texts[a].0,
            #[trigger] texts[b].0,
        ) by {
            assert(lex_less(entries[a].0, entries[b].0));
        }
    }
    lemma_sort_entries_of_ascending(texts);
}

/// Where the encoding of a value in canonical form stands, that value
/// parses.
pub proof fn lemma_parse_value_complete(s: Seq<u8>, i: int, v: ValueView)
    requires
        0 <= i,
        canonical(v),
        i + encoding(v).len() <= s.len(),
        s.subrange(i, i + encoding(v).len()) == encoding(v),
    ensures
        parse_value(s, i) == Ok::<(ValueView, int), DecodeError>(
            (v, i + encoding(v).len()),
        ),
    decreases v,
{
    let text = encoding(v);
    lemma_encoding_lead(v);
    assert(s[i] == text[0]) by {
        assert(s.subrange(i, i + text.len())[0] == s[i]);
    }
    match v {
        ValueView::Integer(n) => {
            lemma_parse_integer_complete(s, i, n);
        },
        ValueView::ByteString(bytes) => {
            lemma_parse_byte_string_complete(s, i, bytes);
        },
        ValueView::List(items) => {
            let inner = list_encoding(items);
            assert(s.subrange(i + 1, i + 1 + inner.len()) =~= inner) by {
                assert forall|k: int| 0 <= k < inner.len() implies s[i + 1 + k] == inner[k] by {
                    assert(s.subrange(i, i + text.len())[k + 1] == s[i + 1 + k]);
                }
            }
            assert(s[i + 1 + inner.len()] == 101u8) by {
                let last = inner.len() as int + 1;
                assert(s.subrange(i, i + text.len())[last] == s[i + last]);
            }
            lemma_parse_list_complete(s, i + 1, items);
        },
        ValueView::Dictionary(entries) => {
            lemma_canonical_dictionary_encoding(entries);
            let inner = entries_encoding(encoded_entries(entries));
            assert(s.subrange(i + 1, i + 1 + inner.len()) =~= inner) by {
                assert forall|k: int| 0 <= k < inner.len() implies s[i + 1 + k] == inner[k] by {
                    assert(s.subrange(i, i + text.len())[k + 1] == s[i + 1 + k]);
                }
            }
            assert(s[i + 1 + inner.len()] == 101u8) by {
                let last = inner.len() as int + 1;
                assert(s.subrange(i, i + text.len())[last] == s[i + last]);
            }
            lemma_parse_dictionary_complete(s, i + 1, entries, None);
        },
    }
}

/// Where the encodings of items in canonical form stand one after the other,
/// with an `e` behind them, those items parse.
pub proof fn lemma_parse_list_complete(s: Seq<u8>, i: int, items: Seq<ValueView>)
    requires
        0 <= i,
        forall|k: int| 0 <= k < items.len() ==> canonical(#[trigger] items[k]),
        i + list_encoding(items).len() < s.len(),
        s.subrange(i, i + list_encoding(items).len()) == list_encoding(items),
        s[i + list_encoding(items).len()] == 101u8,
    ensures
        parse_list(s, i) == Ok::<(Seq<ValueView>, int), DecodeError>(
            (items, i + list_encoding(items).len() + 1),
        ),
    decreases items,
{
    let text = list_encoding(items);
    if items.len() == 0 {
        assert(parse_list(s, i)->Ok_0.0 =~= items);
    } else {
        let first = items[0];
        let rest = items.skip(1);
        lemma_list_encoding_first(items);
        let head = encoding(first);
        lemma_encoding_lead(first);
        assert(s.subrange(i, i + head.len()) =~= head) by {
            assert forall|k: int| 0 <= k < head.len() implies s[i + k] == head[k] by {
                assert(s.subrange(i, i + text.len())[k] == s[i + k]);
            }
        }
        assert(s[i] == head[0]) by {
            assert(s.subrange(i, i + head.len())[0] == s[i]);
        }
        lemma_parse_value_complete(s, i, first);
        let at = i + head.len();
        assert(s.subrange(at, at + list_encoding(rest).len()) =~= list_encoding(rest)) by {
            assert forall|k: int| 0 <= k < list_encoding(rest).len() implies s[at + k]
                == list_encoding(rest)[k] by {
                assert(s.subrange(i, i + text.len())[head.len() + k] == s[at + k]);
            }
        }
        assert forall|k: int| 0 <= k < rest.len() implies canonical(#[trigger] rest[k]) by {
            assert(rest[k] == items[k + 1]);
        }
        lemma_parse_list_complete(s, at, rest);
        assert(seq![first] + rest =~= items);
    }
}

/// Where the encodings of entries stand one after the other, with an `e`
/// behind them, the keys ascending behind `previous` and the values in
/// canonical form, those entries parse.
pub proof fn lemma_parse_dictionary_complete(
    s: Seq<u8>,
    i: int,
    entries: Seq<(Seq<u8>, ValueView)>,
    previous: Option<Seq<u8>>,
)
    requires
        0 <= i,
        ascending_keys(entries),
        previous is Some && entries.len() > 0 ==> lex_less(previous->0, entries[0].0),
        forall|k: int| 0 <= k < entries.len() ==> canonical((#[trigger] entries[k]).1),
        i + entries_encoding(encoded_entries(entries)).len() < s.len(),
        s.subrange(i, i + entries_encoding(encoded_entries(entries)).len()) == entries_encoding(
            encoded_entries(entries),
        ),
        s[i + entries_encoding(encoded_entries(entries)).len()] == 101u8,
    ensures
        parse_dictionary(s, i, previous) == Ok::<
            (Seq<(Seq<u8>, ValueView)>, int),
            DecodeError,
        >((entries, i + entries_encoding(encoded_entries(entries)).len() + 1)),
    decreases entries,
{
    let text = entries_encoding(encoded_entries(entries));
    if entries.len() == 0 {
        assert(encoded_entries(entries) =~= Seq::<(Seq<u8>, Seq<u8>)>::empty());
        assert(parse_dictionary(s, i, previous)->Ok_0.0 =~= entries);
    } else {
        let key = entries[0].0;
        let value = entries[0].1;
        let rest = entries.skip(1);
        lemma_entries_encoding_first(entries);
        let head = string_encoding(key);
        let body = encoding(value);
        let tail = entries_encoding(encoded_entries(rest));
        assert(text == head + body + tail);
        assert(s.subrange(i, i + head.len()) =~= head) by {
            assert forall|k: int| 0 <= k < head.len() implies s[i + k] == head[k] by {
                assert(s.subrange(i, i + text.len())[k] == s[i + k]);
            }
        }
        lemma_parse_byte_string_complete(s, i, key);
        let at = i + head.len();
        assert(s.subrange(at, at + body.len()) =~= body) by {
            assert forall|k: int| 0 <= k < body.len() implies s[at + k] == body[k] by {
                assert(s.subrange(i, i + text.len())[head.len() + k] == s[at + k]);
            }
        }
        lemma_encoding_lead(value);
        lemma_parse_value_complete(s, at, value);
        let behind = at + body.len();
        assert(s.subrange(behind, behind + tail.len()) =~= tail) by {
            assert forall|k: int| 0 <= k < tail.len() implies s[behind + k] == tail[k] by {
                assert(s.subrange(i, i + text.len())[head.len() + body.len() + k] == s[behind
                    + k]);
            }
        }
        if previous is Some {
            lemma_lex_less_asymmetric(previous->0, key);
            lemma_lex_less_irreflexive(key);
        }
        assert(ascending_keys(rest)) by {
            assert forall|a: int, b: int| 0 <= a < b < rest.len() implies lex_less(
                #[trigger] rest[a].0,
                #[trigger] rest[b].0,
            ) by {
                assert(rest[a] == entries[a + 1]);
                assert(rest[b] == entries[b + 1]);
                assert(lex_less(entries[a + 1].0, entries[b + 1].0));
            }
        }
        if rest.len() > 0 {
            assert(rest[0] == entries[1]);
            assert(lex_less(entries[0].0, entries[1].0));
        }
        assert forall|k: int| 0 <= k < rest.len() implies canonical((#[trigger] rest[k]).1) by {
            assert(rest[k] == entries[k + 1]);
        }
        lemma_parse_dictionary_complete(s, behind, rest, Some(key));
        assert(seq![(key, value)] + rest =~= entries);
    }
}

} // verus!

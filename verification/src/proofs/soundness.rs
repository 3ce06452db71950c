//! Decoding is sound: what parses is in canonical form, and is written as its
//! encoding.

use crate::decimal::{
    canonical_digits, digits_value, is_digit, lemma_digits_roundtrip, lemma_digits_value_positive,
    signed_decimal,
};
use crate::encoding::{
    ascending_keys, canonical, encoded_entries, encoding, entries_encoding, integer_encoding,
    lemma_encoded_entries, lemma_entries_encoding_concat, lemma_list_encoding_concat,
    lemma_sort_entries_of_ascending, list_encoding, string_encoding,
};
use crate::grammar::{
    find_byte, lemma_find_byte, lemma_first_non_digit, parse_byte_string, parse_dictionary,
    parse_integer, parse_list, parse_value,
};
use crate::order::{lemma_lex_less_total, lemma_lex_less_transitive, lex_less};
use crate::value::ValueView;
use vstd::prelude::*;

verus! {

/// An integer that parses is written as its encoding.
pub proof fn lemma_parse_integer_sound(s: Seq<u8>, i: int)
    requires
        0 <= i < s.len(),
        s[i] == 105u8,
        parse_integer(s, i) is Ok,
    ensures
        i < parse_integer(s, i)->Ok_0.1 <= s.len(),
        s.subrange(i, parse_integer(s, i)->Ok_0.1) == integer_encoding(
            parse_integer(s, i)->Ok_0.0,
        ),
{
    let end = find_byte(s, i + 1, 101u8);
    lemma_find_byte(s, i + 1, 101u8);
    let (n, next) = parse_integer(s, i)->Ok_0;
    let start = if s[i + 1] == 45u8 {
        i + 2
    } else {
        i + 1
    };
    lemma_first_non_digit(s, start, end);
    let digits = s.subrange(start, end);
    assert(digits[0] == s[start]);
    assert(canonical_digits(digits));
    lemma_digits_roundtrip(digits);
    if s[i + 1] == 45u8 {
        lemma_digits_value_positive(digits);
        assert(signed_decimal(n) =~= s.subrange(i + 1, end));
    } else {
        assert(signed_decimal(n) =~= s.subrange(i + 1, end));
    }
    assert(s.subrange(i, next) =~= seq![105u8] + s.subrange(i + 1, end) + seq![101u8]);
}

/// A byte string that parses is written as its encoding.
pub proof fn lemma_parse_byte_string_sound(s: Seq<u8>, i: int)
    requires
        0 <= i < s.len(),
        parse_byte_string(s, i) is Ok,
    ensures
        i < parse_byte_string(s, i)->Ok_0.1 <= s.len(),
        s.subrange(i, parse_byte_string(s, i)->Ok_0.1) == string_encoding(
            parse_byte_string(s, i)->Ok_0.0,
        ),
{
    let colon = find_byte(s, i, 58u8);
    lemma_find_byte(s, i, 58u8);
    lemma_first_non_digit(s, i, colon);
    let (bytes, next) = parse_byte_string(s, i)->Ok_0;
    let digits = s.subrange(i, colon);
    assert(digits[0] == s[i]);
    assert(canonical_digits(digits));
    lemma_digits_roundtrip(digits);
    assert(bytes.len() == digits_value(digits));
    assert(s.subrange(i, next) =~= digits + seq![58u8] + bytes);
}

/// A value that parses is in canonical form, and is written as its encoding.
pub proof fn lemma_parse_value_sound(s: Seq<u8>, i: int)
    requires
        parse_value(s, i) is Ok,
    ensures
        0 <= i < parse_value(s, i)->Ok_0.1 <= s.len(),
        canonical(parse_value(s, i)->Ok_0.0),
        s.subrange(i, parse_value(s, i)->Ok_0.1) == encoding(parse_value(s, i)->Ok_0.0),
    decreases s.len() - i, 0int,
{
    let (v, next) = parse_value(s, i)->Ok_0;
    if s[i] == 105u8 {
        lemma_parse_integer_sound(s, i);
    } else if is_digit(s[i]) {
        lemma_parse_byte_string_sound(s, i);
    } else if s[i] == 108u8 {
        lemma_parse_list_sound(s, i + 1);
        let (items, end) = parse_list(s, i + 1)->Ok_0;
        assert(s.subrange(i, next) =~= seq![108u8] + s.subrange(i + 1, end - 1) + seq![101u8]);
    } else {
        lemma_parse_dictionary_sound(s, i + 1, None);
        let (entries, end) = parse_dictionary(s, i + 1, None)->Ok_0;
        let texts = encoded_entries(entries);
        lemma_encoded_entries(entries);
        assert(ascending_keys(texts)) by {
            assert forall|a: int, b: int| 0 <= a < b < texts.len() implies lex_less(
                #[trigger] texts[a].0,
                #[trigger] texts[b].0,
            ) by {
                assert(lex_less(entries[a].0, entries[b].0));
            }
        }
        lemma_sort_entries_of_ascending(texts);
        assert(s.subrange(i, next) =~= seq![100u8] + s.subrange(i + 1, end - 1) + seq![101u8]);
    }
}

/// The items of a list that parses are in canonical form, and are written
/// one after the other, with an `e` behind them.
pub proof fn lemma_parse_list_sound(s: Seq<u8>, i: int)
    requires
        parse_list(s, i) is Ok,
    ensures
        0 <= i < parse_list(s, i)->Ok_0.1 <= s.len(),
        s[parse_list(s, i)->Ok_0.1 - 1] == 101u8,
        forall|k: int|
            0 <= k < parse_list(s, i)->Ok_0.0.len() ==> canonical(
                #[trigger] parse_list(s, i)->Ok_0.0[k],
            ),
        s.subrange(i, parse_list(s, i)->Ok_0.1 - 1) == list_encoding(parse_list(s, i)->Ok_0.0),
    decreases s.len() - i, 1int,
{
    let (items, next) = parse_list(s, i)->Ok_0;
    if s[i] == 101u8 {
        assert(s.subrange(i, next - 1) =~= list_encoding(items));
    } else {
        lemma_parse_value_sound(s, i);
        let (item, at) = parse_value(s, i)->Ok_0;
        lemma_parse_list_sound(s, at);
        let (rest, end) = parse_list(s, at)->Ok_0;
        assert(items == seq![item] + rest);
        lemma_list_encoding_concat(seq![item], rest);
        assert(seq![item].drop_last() =~= Seq::<ValueView>::empty());
        assert(seq![item].last() == item);
        assert(list_encoding(Seq::<ValueView>::empty()) =~= Seq::<u8>::empty());
        assert(list_encoding(seq![item]) =~= encoding(item));
        assert(s.subrange(i, next - 1) =~= s.subrange(i, at) + s.subrange(at, end - 1));
        assert forall|k: int| 0 <= k < items.len() implies canonical(#[trigger] items[k]) by {
            if k > 0 {
                assert(items[k] == rest[k - 1]);
            }
        }
    }
}

/// The entries of a dictionary that parses stand in ascending key order,
/// behind the key in front of them; their values are in canonical form, and
/// they are written one after the other, with an `e` behind them.
pub proof fn lemma_parse_dictionary_sound(s: Seq<u8>, i: int, previous: Option<Seq<u8>>)
    requires
        parse_dictionary(s, i, previous) is Ok,
    ensures
        0 <= i < parse_dictionary(s, i, previous)->Ok_0.1 <= s.len(),
        s[parse_dictionary(s, i, previous)->Ok_0.1 - 1] == 101u8,
        ascending_keys(parse_dictionary(s, i, previous)->Ok_0.0),
        previous is Some && parse_dictionary(s, i, previous)->Ok_0.0.len() > 0 ==> lex_less(
            previous->0,
            parse_dictionary(s, i, previous)->Ok_0.0[0].0,
        ),
        forall|k: int|
            0 <= k < parse_dictionary(s, i, previous)->Ok_0.0.len() ==> canonical(
                (#[trigger] parse_dictionary(s, i, previous)->Ok_0.0[k]).1,
            ),
        s.subrange(i, parse_dictionary(s, i, previous)->Ok_0.1 - 1) == entries_encoding(
            encoded_entries(parse_dictionary(s, i, previous)->Ok_0.0),
        ),
    decreases s.len() - i, 1int,
{
    let (entries, next) = parse_dictionary(s, i, previous)->Ok_0;
    if s[i] == 101u8 {
        assert(s.subrange(i, next - 1) =~= entries_encoding(encoded_entries(entries)));
    } else {
        lemma_parse_byte_string_sound(s, i);
        let (key, at) = parse_byte_string(s, i)->Ok_0;
        lemma_parse_value_sound(s, at);
        let (value, behind) = parse_value(s, at)->Ok_0;
        lemma_parse_dictionary_sound(s, behind, Some(key));
        let (rest, end) = parse_dictionary(s, behind, Some(key))->Ok_0;
        let first = (key, value);
        assert(entries == seq![first] + rest);
        if previous is Some {
            lemma_lex_less_total(previous->0, key);
        }
        assert forall|a: int, b: int| 0 <= a < b < entries.len() implies lex_less(
            #[trigger] entries[a].0,
            #[trigger] entries[b].0,
        ) by {
            assert(entries[b] == rest[b - 1]);
            if a == 0 {
                if b > 1 {
                    assert(lex_less(rest[0].0, rest[b - 1].0));
                    lemma_lex_less_transitive(key, rest[0].0, rest[b - 1].0);
                }
            } else {
                assert(entries[a] == rest[a - 1]);
                assert(lex_less(rest[a - 1].0, rest[b - 1].0));
            }
        }
        assert forall|k: int| 0 <= k < entries.len() implies canonical(
            (#[trigger] entries[k]).1,
        ) by {
            if k > 0 {
                assert(entries[k] == rest[k - 1]);
            }
        }
        lemma_encoded_entries(entries);
        lemma_encoded_entries(rest);
        let head = seq![(key, encoding(value))];
        assert(encoded_entries(entries) =~= head + encoded_entries(rest)) by {
            assert forall|k: int| 0 <= k < entries.len() implies encoded_entries(entries)[k] == (
                head + encoded_entries(rest)
            )[k] by {
                if k > 0 {
                    assert(entries[k] == rest[k - 1]);
                }
            }
        }
        lemma_entries_encoding_concat(head, encoded_entries(rest));
        assert(head.drop_last() =~= Seq::<(Seq<u8>, Seq<u8>)>::empty());
        assert(head.last() == (key, encoding(value)));
        assert(entries_encoding(Seq::<(Seq<u8>, Seq<u8>)>::empty()) =~= Seq::<u8>::empty());
        assert(entries_encoding(head) =~= string_encoding(key) + encoding(value));
        assert(s.subrange(i, next - 1) =~= s.subrange(i, at) + s.subrange(at, behind)
            + s.subrange(behind, end - 1));
    }
}

} // verus!

//! Encoding: from a value to its canonical bytes.

use crate::decimal::write_int;
use crate::encoding::{
    distinct_keys, encoded_entries, encoding, entries_encoding, lemma_encoded_entries,
    list_encoding, sort_entries, string_encoding, well_keyed,
};
use crate::error::EncodeError;
use crate::integer::Integer;
use crate::keys::{arranged, entry_keys, key_order, lemma_key_order_sorts, names};
use crate::outside::{indices, indices_get, put, put_u8};
use crate::value::{Value, ValueView};
use vstd::prelude::*;

verus! {

/// Encodes a value into its canonical Bencode text.
///
/// Every value has one text, unless a dictionary in it holds two entries with
/// the same key: such a value has none. The entries of a dictionary are
/// written in ascending key order, whatever their order in the value.
pub fn bencode(v: &Value) -> (r: Result<Vec<u8>, EncodeError>)
    ensures
        match r {
            Ok(bytes) => well_keyed(v@) && bytes@ == encoding(v@),
            Err(e) => e == EncodeError::DuplicateKey && !well_keyed(v@),
        },
{
    let mut buf: Vec<u8> = Vec::with_capacity(4096);
    match encode_any(&mut buf, v) {
        Ok(()) => {
            assert(buf@ =~= encoding(v@));
            Ok(buf)
        },
        Err(err) => Err(err),
    }
}

/// Appends the text of a byte string to `buf`: its length, a colon, its
/// bytes.
pub fn encode_str(v: &[u8], buf: &mut Vec<u8>)
    ensures
        final(buf)@ == old(buf)@ + string_encoding(v@),
{
    write_int(buf, v.len() as i128);
    put_u8(buf, 58);
    put(buf, v);
    assert(buf@ =~= old(buf)@ + string_encoding(v@));
}

/// Appends the text of an integer to `buf`: `i`, its decimal text, `e`.
pub fn encode_int(buf: &mut Vec<u8>, value: &Integer)
    ensures
        final(buf)@ == old(buf)@ + encoding(ValueView::Integer(value@)),
{
    put_u8(buf, 105);
    value.write_decimal(buf);
    put_u8(buf, 101);
    assert(buf@ =~= old(buf)@ + encoding(ValueView::Integer(value@)));
}

/// Appends the text of `value` to `buf`, or fails if a dictionary in it holds
/// two entries with the same key.
#[verifier::loop_isolation(false)]
pub fn encode_any(buf: &mut Vec<u8>, value: &Value) -> (r: Result<(), EncodeError>)
    ensures
        match r {
            Ok(()) => well_keyed(value@) && final(buf)@ == old(buf)@ + encoding(value@),
            Err(e) => e == EncodeError::DuplicateKey && !well_keyed(value@),
        },
    decreases value,
{
    match value {
        Value::ByteString(bytes) => {
            encode_str(bytes.as_slice(), buf);
            Ok(())
        },
        Value::Integer(n) => {
            encode_int(buf, n);
            Ok(())
        },
        Value::Dictionary(entries) => encode_dict(buf, entries),
        Value::List(items) => {
            let ghost views = value@->List_0;
            put_u8(buf, 108);
            let mut i: usize = 0;
            while i < items.len()
                invariant
                    i <= items.len(),
                    buf@ == old(buf)@ + seq![108u8] + list_encoding(views.take(i as int)),
                    forall|k: int| 0 <= k < i ==> well_keyed(#[trigger] views[k]),
                decreases items.len() - i,
            {
                assert(views[i as int] == items[i as int]@);
                match encode_any(buf, &items[i]) {
                    Ok(()) => {},
                    Err(e) => {
                        return Err(e);
                    },
                }
                proof {
                    assert(views.take(i + 1).drop_last() =~= views.take(i as int));
                    assert(buf@ =~= old(buf)@ + seq![108u8] + list_encoding(views.take(i + 1)));
                }
                i = i + 1;
            }
            put_u8(buf, 101);
            proof {
                assert(views.take(i as int) =~= views);
                assert(buf@ =~= old(buf)@ + encoding(value@));
            }
            Ok(())
        },
    }
}

/// Appends the text of a dictionary with the given entries to `buf`: the
/// entries in ascending key order, each key as a byte string with the text of
/// its value behind it.
#[verifier::loop_isolation(false)]
pub fn encode_dict(buf: &mut Vec<u8>, entries: &Vec<(Vec<u8>, Value)>) -> (r: Result<
    (),
    EncodeError,
>)
    ensures
        match r {
            Ok(()) => well_keyed(Value::Dictionary(*entries)@) && final(buf)@ == old(buf)@
                + encoding(Value::Dictionary(*entries)@),
            Err(e) => e == EncodeError::DuplicateKey && !well_keyed(
                Value::Dictionary(*entries)@,
            ),
        },
    decreases entries,
{
    let ghost whole = Value::Dictionary(*entries)@;
    let ghost views = whole->Dictionary_0;
    let ghost keys = entry_keys(entries@);
    let ghost texts = encoded_entries(views);
    let ghost sorted = sort_entries(texts);
    assert(views.len() == entries@.len());
    assert forall|i: int| 0 <= i < views.len() implies (#[trigger] views[i]).0 == keys[i]
        && views[i].1 == entries[i].1@ by {}
    let order = match key_order(entries) {
        Ok(order) => order,
        Err(e) => {
            proof {
                if distinct_keys(views) {
                    assert forall|i: int, j: int| 0 <= i < j < keys.len() implies #[trigger] keys[i]
                        != #[trigger] keys[j] by {
                        assert(views[i].0 != views[j].0);
                    }
                }
            }
            return Err(e);
        },
    };
    let ghost positions = indices(order);
    proof {
        lemma_encoded_entries(views);
        lemma_key_order_sorts(positions, keys, texts);
        lemma_key_order_sorts(positions, keys, views);
        assert(arranged(texts, positions) == sorted);
    }
    put_u8(buf, 100);
    let n = entries.len();
    let mut a: usize = 0;
    while a < n
        invariant
            a <= n,
            buf@ == old(buf)@ + seq![100u8] + entries_encoding(sorted.take(a as int)),
            forall|k: int| 0 <= k < a ==> well_keyed(views[#[trigger] positions[k] as int].1),
        decreases n - a,
    {
        let i = indices_get(&order, a);
        assert(positions[a as int] < n);
        encode_str(entries[i].0.as_slice(), buf);
        match encode_any(buf, &entries[i].1) {
            Ok(()) => {},
            Err(e) => {
                return Err(e);
            },
        }
        proof {
            assert(sorted[a as int] == texts[i as int]);
            assert(sorted.take(a + 1).drop_last() =~= sorted.take(a as int));
            assert(sorted.take(a + 1).last() == sorted[a as int]);
            assert(buf@ =~= old(buf)@ + seq![100u8] + entries_encoding(sorted.take(a + 1)));
        }
        a = a + 1;
    }
    put_u8(buf, 101);
    proof {
        assert(sorted.take(a as int) =~= sorted);
        assert(buf@ =~= old(buf)@ + encoding(whole));
        assert forall|i: int| 0 <= i < views.len() implies well_keyed((#[trigger] views[i]).1) by {
            assert(names(positions, i));
            let k = choose|k: int| 0 <= k < positions.len() && #[trigger] positions[k] == i;
            assert(well_keyed(views[positions[k] as int].1));
        }
    }
    Ok(())
}

} // verus!

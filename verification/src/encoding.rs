//! What the bytes of a value are: the canonical Bencode text of a value, and
//! the order in which a dictionary's entries stand in it.

use crate::decimal::{decimal_text, signed_decimal};
use crate::order::{
    lemma_lex_less_asymmetric, lemma_lex_less_irreflexive, lemma_lex_less_total,
    lemma_lex_less_transitive, lex_less,
};
use crate::value::ValueView;
use vstd::prelude::*;

verus! {

/// The keys stand in strictly ascending byte-lexicographic order.
pub open spec fn ascending_keys<V>(entries: Seq<(Seq<u8>, V)>) -> bool {
    forall|i: int, j: int|
        0 <= i < j < entries.len() ==> lex_less(#[trigger] entries[i].0, #[trigger] entries[j].0)
}

/// No two entries have the same key.
pub open spec fn distinct_keys<V>(entries: Seq<(Seq<u8>, V)>) -> bool {
    forall|i: int, j: int|
        0 <= i < j < entries.len() ==> #[trigger] entries[i].0 != #[trigger] entries[j].0
}

/// `sorted` with `entry` put in front of the entries whose keys come after
/// its key.
pub open spec fn insert_entry<V>(sorted: Seq<(Seq<u8>, V)>, entry: (Seq<u8>, V)) -> Seq<
    (Seq<u8>, V),
>
    decreases sorted.len(),
{
    if sorted.len() == 0 || !lex_less(entry.0, sorted.last().0) {
        sorted.push(entry)
    } else {
        insert_entry(sorted.drop_last(), entry).push(sorted.last())
    }
}

/// The entries in ascending key order.
pub open spec fn sort_entries<V>(entries: Seq<(Seq<u8>, V)>) -> Seq<(Seq<u8>, V)>
    decreases entries.len(),
{
    if entries.len() == 0 {
        entries
    } else {
        insert_entry(sort_entries(entries.drop_last()), entries.last())
    }
}

/// The text of a byte string: its length in decimal, a colon, its bytes.
pub open spec fn string_encoding(bytes: Seq<u8>) -> Seq<u8> {
    decimal_text(bytes.len()) + seq![58u8] + bytes
}

/// The text of an integer: `i`, its decimal text, `e`.
pub open spec fn integer_encoding(n: int) -> Seq<u8> {
    seq![105u8] + signed_decimal(n) + seq![101u8]
}

/// The canonical Bencode text of a value. A dictionary's entries stand in it
/// in ascending key order, whatever their order in the value.
pub open spec fn encoding(v: ValueView) -> Seq<u8>
    decreases v,
{
    match v {
        ValueView::Integer(n) => integer_encoding(n),
        ValueView::ByteString(bytes) => string_encoding(bytes),
        ValueView::List(items) => seq![108u8] + list_encoding(items) + seq![101u8],
        ValueView::Dictionary(entries) => seq![100u8] + entries_encoding(
            sort_entries(encoded_entries(entries)),
        ) + seq![101u8],
    }
}

/// The texts of the items, one after the other.
pub open spec fn list_encoding(items: Seq<ValueView>) -> Seq<u8>
    decreases items,
{
    if items.len() == 0 {
        Seq::empty()
    } else {
        list_encoding(items.drop_last()) + encoding(items.last())
    }
}

/// Each entry's key with the text of its value.
pub open spec fn encoded_entries(entries: Seq<(Seq<u8>, ValueView)>) -> Seq<(Seq<u8>, Seq<u8>)>
    decreases entries,
{
    if entries.len() == 0 {
        Seq::empty()
    } else {
        encoded_entries(entries.drop_last()).push(
            (entries.last().0, encoding(entries.last().1)),
        )
    }
}

/// The texts of the entries, one after the other: each key as a byte string,
/// then the text of its value.
pub open spec fn entries_encoding(encoded: Seq<(Seq<u8>, Seq<u8>)>) -> Seq<u8>
    decreases encoded.len(),
{
    if encoded.len() == 0 {
        Seq::empty()
    } else {
        entries_encoding(encoded.drop_last()) + string_encoding(encoded.last().0)
            + encoded.last().1
    }
}

/// No dictionary in the value holds two entries with the same key: the value
/// can be encoded.
pub open spec fn well_keyed(v: ValueView) -> bool
    decreases v,
{
    match v {
        ValueView::Integer(_) => true,
        ValueView::ByteString(_) => true,
        ValueView::List(items) => forall|i: int|
            0 <= i < items.len() ==> well_keyed(#[trigger] items[i]),
        ValueView::Dictionary(entries) => {
            &&& distinct_keys(entries)
            &&& forall|i: int| 0 <= i < entries.len() ==> well_keyed((#[trigger] entries[i]).1)
        },
    }
}

/// Every dictionary in the value holds its entries in strictly ascending key
/// order: the value is in canonical form.
pub open spec fn canonical(v: ValueView) -> bool
    decreases v,
{
    match v {
        ValueView::Integer(_) => true,
        ValueView::ByteString(_) => true,
        ValueView::List(items) => forall|i: int|
            0 <= i < items.len() ==> canonical(#[trigger] items[i]),
        ValueView::Dictionary(entries) => {
            &&& ascending_keys(entries)
            &&& forall|i: int| 0 <= i < entries.len() ==> canonical((#[trigger] entries[i]).1)
        },
    }
}

/// Keys in ascending order are distinct.
pub proof fn lemma_ascending_distinct<V>(entries: Seq<(Seq<u8>, V)>)
    requires
        ascending_keys(entries),
    ensures
        distinct_keys(entries),
{
    assert forall|i: int, j: int| 0 <= i < j < entries.len() implies #[trigger] entries[i].0
        != #[trigger] entries[j].0 by {
        lemma_lex_less_irreflexive(entries[i].0);
    }
}

/// A value in canonical form can be encoded.
pub proof fn lemma_canonical_well_keyed(v: ValueView)
    requires
        canonical(v),
    ensures
        well_keyed(v),
    decreases v,
{
    match v {
        ValueView::Integer(_) => {},
        ValueView::ByteString(_) => {},
        ValueView::List(items) => {
            assert forall|i: int| 0 <= i < items.len() implies well_keyed(#[trigger] items[i]) by {
                lemma_canonical_well_keyed(items[i]);
            }
        },
        ValueView::Dictionary(entries) => {
            lemma_ascending_distinct(entries);
            assert forall|i: int| 0 <= i < entries.len() implies well_keyed(
                (#[trigger] entries[i]).1,
            ) by {
                lemma_canonical_well_keyed(entries[i].1);
            }
        },
    }
}

/// Inserting an entry adds it and keeps the others; where the keys were
/// ascending and the new key is none of them, they are ascending still.
pub proof fn lemma_insert_entry<V>(sorted: Seq<(Seq<u8>, V)>, entry: (Seq<u8>, V))
    ensures
        insert_entry(sorted, entry).len() == sorted.len() + 1,
        forall|e: (Seq<u8>, V)| #[trigger]
            insert_entry(sorted, entry).contains(e) <==> (sorted.contains(e) || e == entry),
        (ascending_keys(sorted) && forall|i: int|
            0 <= i < sorted.len() ==> (#[trigger] sorted[i]).0 != entry.0) ==> ascending_keys(
            insert_entry(sorted, entry),
        ),
    decreases sorted.len(),
{
    let result = insert_entry(sorted, entry);
    if sorted.len() == 0 || !lex_less(entry.0, sorted.last().0) {
        assert forall|e: (Seq<u8>, V)| #[trigger]
            result.contains(e) <==> (sorted.contains(e) || e == entry) by {
            if result.contains(e) {
                let k = choose|k: int| 0 <= k < result.len() && result[k] == e;
                if k < sorted.len() {
                    assert(sorted[k] == e);
                }
            }
            if sorted.contains(e) {
                let k = choose|k: int| 0 <= k < sorted.len() && sorted[k] == e;
                assert(result[k] == e);
            }
            if e == entry {
                assert(result[sorted.len() as int] == e);
            }
        }
        if ascending_keys(sorted) && forall|i: int|
            0 <= i < sorted.len() ==> (#[trigger] sorted[i]).0 != entry.0 {
            assert forall|i: int, j: int| 0 <= i < j < result.len() implies lex_less(
                #[trigger] result[i].0,
                #[trigger] result[j].0,
            ) by {
                if j == sorted.len() {
                    let last = sorted.last();
                    assert(sorted[sorted.len() - 1].0 != entry.0);
                    lemma_lex_less_total(entry.0, last.0);
                    if i < sorted.len() - 1 {
                        assert(lex_less(sorted[i].0, sorted[sorted.len() - 1].0));
                        lemma_lex_less_transitive(sorted[i].0, last.0, entry.0);
                    }
                } else {
                    assert(result[i] == sorted[i]);
                    assert(result[j] == sorted[j]);
                }
            }
        }
    } else {
        let front = sorted.drop_last();
        let last = sorted.last();
        lemma_insert_entry(front, entry);
        let inner = insert_entry(front, entry);
        assert(result == inner.push(last));
        assert forall|e: (Seq<u8>, V)| #[trigger]
            result.contains(e) <==> (sorted.contains(e) || e == entry) by {
            if result.contains(e) {
                let k = choose|k: int| 0 <= k < result.len() && result[k] == e;
                if k < inner.len() {
                    assert(inner[k] == e);
                    assert(inner.contains(e));
                    if front.contains(e) {
                        let m = choose|m: int| 0 <= m < front.len() && front[m] == e;
                        assert(sorted[m] == e);
                    }
                } else {
                    assert(sorted[sorted.len() - 1] == e);
                }
            }
            if sorted.contains(e) {
                let k = choose|k: int| 0 <= k < sorted.len() && sorted[k] == e;
                if k < front.len() {
                    assert(front[k] == e);
                    assert(front.contains(e));
                    assert(inner.contains(e));
                    let m = choose|m: int| 0 <= m < inner.len() && inner[m] == e;
                    assert(result[m] == e);
                } else {
                    assert(result[inner.len() as int] == e);
                }
            }
            if e == entry {
                assert(inner.contains(e));
                let m = choose|m: int| 0 <= m < inner.len() && inner[m] == e;
                assert(result[m] == e);
            }
        }
        if ascending_keys(sorted) && forall|i: int|
            0 <= i < sorted.len() ==> (#[trigger] sorted[i]).0 != entry.0 {
            assert(ascending_keys(front)) by {
                assert forall|i: int, j: int| 0 <= i < j < front.len() implies lex_less(
                    #[trigger] front[i].0,
                    #[trigger] front[j].0,
                ) by {
                    assert(front[i] == sorted[i]);
                    assert(front[j] == sorted[j]);
                }
            }
            assert forall|i: int| 0 <= i < front.len() implies (#[trigger] front[i]).0
                != entry.0 by {
                assert(front[i] == sorted[i]);
            }
            assert(ascending_keys(inner));
            assert forall|i: int, j: int| 0 <= i < j < result.len() implies lex_less(
                #[trigger] result[i].0,
                #[trigger] result[j].0,
            ) by {
                if j == inner.len() {
                    assert(inner.contains(inner[i]));
                    if inner[i] == entry {
                    } else {
                        assert(front.contains(inner[i]));
                        let m = choose|m: int| 0 <= m < front.len() && front[m] == inner[i];
                        assert(sorted[m] == inner[i]);
                        assert(lex_less(sorted[m].0, sorted[sorted.len() - 1].0));
                    }
                } else {
                    assert(result[i] == inner[i]);
                    assert(result[j] == inner[j]);
                }
            }
        }
    }
}

/// Sorting keeps the entries; where the keys are distinct, it puts them in
/// ascending order.
pub proof fn lemma_sort_entries<V>(entries: Seq<(Seq<u8>, V)>)
    ensures
        sort_entries(entries).len() == entries.len(),
        forall|e: (Seq<u8>, V)| #[trigger]
            sort_entries(entries).contains(e) <==> entries.contains(e),
        distinct_keys(entries) ==> ascending_keys(sort_entries(entries)),
    decreases entries.len(),
{
    if entries.len() > 0 {
        let front = entries.drop_last();
        let last = entries.last();
        let sorted = sort_entries(front);
        lemma_sort_entries(front);
        lemma_insert_entry(sorted, last);
        let result = sort_entries(entries);
        assert forall|e: (Seq<u8>, V)| #[trigger] result.contains(e) <==> entries.contains(e) by {
            if front.contains(e) {
                let m = choose|m: int| 0 <= m < front.len() && front[m] == e;
                assert(entries[m] == e);
            }
            if entries.contains(e) {
                let m = choose|m: int| 0 <= m < entries.len() && entries[m] == e;
                if m < front.len() {
                    assert(front[m] == e);
                } else {
                    assert(e == last);
                }
            }
            if e == last {
                assert(entries[entries.len() - 1] == e);
            }
        }
        if distinct_keys(entries) {
            assert(distinct_keys(front)) by {
                assert forall|i: int, j: int| 0 <= i < j < front.len() implies #[trigger] front[i].0
                    != #[trigger] front[j].0 by {
                    assert(front[i] == entries[i]);
                    assert(front[j] == entries[j]);
                }
            }
            assert forall|i: int| 0 <= i < sorted.len() implies (#[trigger] sorted[i]).0
                != last.0 by {
                assert(sorted.contains(sorted[i]));
                assert(front.contains(sorted[i]));
                let m = choose|m: int| 0 <= m < front.len() && front[m] == sorted[i];
                assert(entries[m].0 != entries[entries.len() - 1].0);
            }
        }
    }
}

/// Two sequences of entries that hold the same entries, each in ascending key
/// order, are the same sequence.
pub proof fn lemma_ascending_unique<V>(x: Seq<(Seq<u8>, V)>, y: Seq<(Seq<u8>, V)>)
    requires
        ascending_keys(x),
        ascending_keys(y),
        forall|e: (Seq<u8>, V)| #[trigger] x.contains(e) <==> y.contains(e),
    ensures
        x == y,
    decreases x.len(),
{
    if x.len() == 0 {
        if y.len() > 0 {
            assert(y.contains(y[0]));
            assert(x.contains(y[0]));
        }
        assert(x =~= y);
    } else {
        let xl = x.last();
        assert(x.contains(xl));
        assert(y.contains(xl));
        let k = choose|k: int| 0 <= k < y.len() && y[k] == xl;
        let yl = y.last();
        assert(y.contains(yl));
        assert(x.contains(yl));
        let m = choose|m: int| 0 <= m < x.len() && x[m] == yl;
        lemma_lex_less_irreflexive(xl.0);
        lemma_lex_less_irreflexive(yl.0);
        if k < y.len() - 1 {
            assert(lex_less(y[k].0, y[y.len() - 1].0));
            if m < x.len() - 1 {
                assert(lex_less(x[m].0, x[x.len() - 1].0));
                lemma_lex_less_asymmetric(xl.0, yl.0);
            }
        }
        if m < x.len() - 1 {
            assert(lex_less(x[m].0, x[x.len() - 1].0));
        }
        assert(xl == yl);
        let xf = x.drop_last();
        let yf = y.drop_last();
        assert forall|e: (Seq<u8>, V)| #[trigger] xf.contains(e) <==> yf.contains(e) by {
            if xf.contains(e) {
                let a = choose|a: int| 0 <= a < xf.len() && xf[a] == e;
                assert(x[a] == e);
                assert(x.contains(e));
                assert(y.contains(e));
                let b = choose|b: int| 0 <= b < y.len() && y[b] == e;
                if b == y.len() - 1 {
                    assert(lex_less(x[a].0, x[x.len() - 1].0));
                    lemma_lex_less_irreflexive(e.0);
                }
                assert(yf[b] == e);
            }
            if yf.contains(e) {
                let b = choose|b: int| 0 <= b < yf.len() && yf[b] == e;
                assert(y[b] == e);
                assert(y.contains(e));
                assert(x.contains(e));
                let a = choose|a: int| 0 <= a < x.len() && x[a] == e;
                if a == x.len() - 1 {
                    assert(lex_less(y[b].0, y[y.len() - 1].0));
                    lemma_lex_less_irreflexive(e.0);
                }
                assert(xf[a] == e);
            }
        }
        assert(ascending_keys(xf)) by {
            assert forall|i: int, j: int| 0 <= i < j < xf.len() implies lex_less(
                #[trigger] xf[i].0,
                #[trigger] xf[j].0,
            ) by {
                assert(xf[i] == x[i]);
                assert(xf[j] == x[j]);
            }
        }
        assert(ascending_keys(yf)) by {
            assert forall|i: int, j: int| 0 <= i < j < yf.len() implies lex_less(
                #[trigger] yf[i].0,
                #[trigger] yf[j].0,
            ) by {
                assert(yf[i] == y[i]);
                assert(yf[j] == y[j]);
            }
        }
        lemma_ascending_unique(xf, yf);
        assert(x =~= xf.push(xl));
        assert(y =~= yf.push(yl));
    }
}

/// Entries that stand in ascending key order are sorted already.
pub proof fn lemma_sort_entries_of_ascending<V>(entries: Seq<(Seq<u8>, V)>)
    requires
        ascending_keys(entries),
    ensures
        sort_entries(entries) == entries,
{
    lemma_ascending_distinct(entries);
    lemma_sort_entries(entries);
    lemma_ascending_unique(sort_entries(entries), entries);
}

/// The entry at each position of `encoded_entries` is the key at that
/// position with the text of its value.
pub proof fn lemma_encoded_entries(entries: Seq<(Seq<u8>, ValueView)>)
    ensures
        encoded_entries(entries).len() == entries.len(),
        forall|i: int|
            0 <= i < entries.len() ==> #[trigger] encoded_entries(entries)[i] == (
                entries[i].0,
                encoding(entries[i].1),
            ),
    decreases entries.len(),
{
    if entries.len() > 0 {
        lemma_encoded_entries(entries.drop_last());
    }
}

/// The text of a list is the text of its front, then the text of its back.
pub proof fn lemma_list_encoding_concat(a: Seq<ValueView>, b: Seq<ValueView>)
    ensures
        list_encoding(a + b) == list_encoding(a) + list_encoding(b),
    decreases b.len(),
{
    if b.len() == 0 {
        assert(a + b =~= a);
        assert(list_encoding(a) + list_encoding(b) =~= list_encoding(a));
    } else {
        lemma_list_encoding_concat(a, b.drop_last());
        assert((a + b).drop_last() =~= a + b.drop_last());
        assert((a + b).last() == b.last());
        assert(list_encoding(a + b) =~= list_encoding(a) + list_encoding(b));
    }
}

/// The text of entries is the text of the front ones, then the text of the
/// back ones.
pub proof fn lemma_entries_encoding_concat(a: Seq<(Seq<u8>, Seq<u8>)>, b: Seq<(Seq<u8>, Seq<u8>)>)
    ensures
        entries_encoding(a + b) == entries_encoding(a) + entries_encoding(b),
    decreases b.len(),
{
    if b.len() == 0 {
        assert(a + b =~= a);
        assert(entries_encoding(a) + entries_encoding(b) =~= entries_encoding(a));
    } else {
        lemma_entries_encoding_concat(a, b.drop_last());
        assert((a + b).drop_last() =~= a + b.drop_last());
        assert((a + b).last() == b.last());
        assert(entries_encoding(a + b) =~= entries_encoding(a) + entries_encoding(b));
    }
}

} // verus!

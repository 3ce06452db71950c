//! The order in which a dictionary's entries are written: the positions of
//! the entries, arranged so that the keys ascend.

use crate::encoding::{
    ascending_keys, distinct_keys, lemma_ascending_unique, lemma_sort_entries, sort_entries,
};
use crate::error::EncodeError;
use crate::order::{
    compare_bytes, lemma_lex_less_irreflexive, lemma_lex_less_transitive, lex_less, KeyOrder,
};
use crate::outside::{
    indices, indices_get, indices_new, indices_push, indices_sort_by_key, IndexBuffer,
};
use vstd::prelude::*;

verus! {

/// The keys of the entries, in the entries' order.
pub open spec fn entry_keys<V>(entries: Seq<(Vec<u8>, V)>) -> Seq<Seq<u8>> {
    Seq::new(entries.len(), |i: int| entries[i].0@)
}

/// Every position in `order` is below `n`.
pub open spec fn positions_below(order: Seq<usize>, n: nat) -> bool {
    forall|a: int| 0 <= a < order.len() ==> #[trigger] order[a] < n
}

/// Along `order`, no key comes before the key in front of it.
pub open spec fn non_descending(order: Seq<usize>, keys: Seq<Seq<u8>>) -> bool {
    forall|a: int, b: int|
        0 <= a < b < order.len() ==> !lex_less(
            keys[#[trigger] order[b] as int],
            keys[#[trigger] order[a] as int],
        )
}

/// `order` holds the position `i`.
pub open spec fn names(order: Seq<usize>, i: int) -> bool {
    exists|a: int| 0 <= a < order.len() && #[trigger] order[a] == i
}

/// `order` names each position of `keys` once, and along it the keys
/// strictly ascend.
pub open spec fn is_key_order(order: Seq<usize>, keys: Seq<Seq<u8>>) -> bool {
    &&& order.len() == keys.len()
    &&& positions_below(order, keys.len())
    &&& forall|i: int| 0 <= i < keys.len() ==> #[trigger] names(order, i)
    &&& forall|a: int, b: int|
        0 <= a < b < order.len() ==> lex_less(
            keys[#[trigger] order[a] as int],
            keys[#[trigger] order[b] as int],
        )
}

/// The entries in the order that `order` names.
pub open spec fn arranged<W>(entries: Seq<(Seq<u8>, W)>, order: Seq<usize>) -> Seq<(Seq<u8>, W)> {
    Seq::new(order.len(), |a: int| entries[order[a] as int])
}

/// Entries arranged in a key order are the entries sorted, and their keys
/// are distinct.
pub proof fn lemma_key_order_sorts<W>(
    order: Seq<usize>,
    keys: Seq<Seq<u8>>,
    entries: Seq<(Seq<u8>, W)>,
)
    requires
        is_key_order(order, keys),
        entries.len() == keys.len(),
        forall|i: int| 0 <= i < entries.len() ==> (#[trigger] entries[i]).0 == keys[i],
    ensures
        distinct_keys(entries),
        arranged(entries, order) == sort_entries(entries),
{
    let x = arranged(entries, order);
    assert forall|i: int, j: int| 0 <= i < j < entries.len() implies #[trigger] entries[i].0
        != #[trigger] entries[j].0 by {
        assert(names(order, i));
        assert(names(order, j));
        let a = choose|a: int| 0 <= a < order.len() && #[trigger] order[a] == i;
        let b = choose|b: int| 0 <= b < order.len() && #[trigger] order[b] == j;
        lemma_lex_less_irreflexive(keys[i]);
        if a < b {
            assert(lex_less(keys[order[a] as int], keys[order[b] as int]));
        } else {
            assert(lex_less(keys[order[b] as int], keys[order[a] as int]));
        }
    }
    assert(ascending_keys(x)) by {
        assert forall|a: int, b: int| 0 <= a < b < x.len() implies lex_less(
            #[trigger] x[a].0,
            #[trigger] x[b].0,
        ) by {
            assert(lex_less(keys[order[a] as int], keys[order[b] as int]));
        }
    }
    lemma_sort_entries(entries);
    assert forall|e: (Seq<u8>, W)| #[trigger] x.contains(e) <==> sort_entries(entries).contains(
        e,
    ) by {
        if x.contains(e) {
            let a = choose|a: int| 0 <= a < x.len() && x[a] == e;
            assert(entries[order[a] as int] == e);
            assert(entries.contains(e));
        }
        if entries.contains(e) {
            let i = choose|i: int| 0 <= i < entries.len() && entries[i] == e;
            assert(names(order, i));
            let a = choose|a: int| 0 <= a < order.len() && #[trigger] order[a] == i;
            assert(x[a] == e);
        }
    }
    lemma_ascending_unique(x, sort_entries(entries));
}

/// No two of the keys are equal.
pub open spec fn distinct(keys: Seq<Seq<u8>>) -> bool {
    forall|i: int, j: int| 0 <= i < j < keys.len() ==> #[trigger] keys[i] != #[trigger] keys[j]
}

/// Along `order`, each key comes strictly behind the key in front of it.
pub open spec fn stepwise_ascending(order: Seq<usize>, keys: Seq<Seq<u8>>, upto: int) -> bool {
    forall|b: int|
        1 <= b < upto ==> lex_less(keys[order[b - 1] as int], keys[#[trigger] order[b] as int])
}

/// Keys that ascend from each item to the next, up to a position, ascend
/// from each item to every later one before that position.
pub proof fn lemma_stepwise_ascending(
    order: Seq<usize>,
    keys: Seq<Seq<u8>>,
    upto: int,
    a: int,
    b: int,
)
    requires
        stepwise_ascending(order, keys, upto),
        0 <= a < b < upto <= order.len(),
    ensures
        lex_less(keys[order[a] as int], keys[order[b] as int]),
    decreases b - a,
{
    assert(lex_less(keys[order[b - 1] as int], keys[order[b] as int]));
    if a < b - 1 {
        lemma_stepwise_ascending(order, keys, upto, a, b - 1);
        lemma_lex_less_transitive(
            keys[order[a] as int],
            keys[order[b - 1] as int],
            keys[order[b] as int],
        );
    }
}

/// `order` names each position of `keys` once, and along it no key comes
/// before the key in front of it.
pub open spec fn is_sorted_arrangement(order: Seq<usize>, keys: Seq<Seq<u8>>) -> bool {
    &&& order.len() == keys.len()
    &&& positions_below(order, keys.len())
    &&& forall|i: int| 0 <= i < keys.len() ==> #[trigger] names(order, i)
    &&& order.no_duplicates()
    &&& non_descending(order, keys)
}

/// The positions of the entries, arranged so that no key comes before the
/// key in front of it.
fn sorted_positions<V>(entries: &Vec<(Vec<u8>, V)>) -> (order: IndexBuffer)
    ensures
        is_sorted_arrangement(indices(order), entry_keys(entries@)),
{
    let n = entries.len();
    let mut order = indices_new();
    let mut i: usize = 0;
    while i < n
        invariant
            i <= n,
            indices(order) == Seq::new(i as nat, |k: int| k as usize),
        decreases n - i,
    {
        indices_push(&mut order, i);
        assert(indices(order) =~= Seq::new((i + 1) as nat, |k: int| k as usize));
        i = i + 1;
    }
    let ghost identity = indices(order);
    indices_sort_by_key(&mut order, entries);
    let ghost sorted = indices(order);
    proof {
        identity.to_multiset_ensures();
        sorted.to_multiset_ensures();
        assert(sorted.len() == n);
        assert forall|a: int| 0 <= a < sorted.len() implies #[trigger] sorted[a] < n by {
            assert(sorted.contains(sorted[a]));
            assert(sorted.to_multiset().count(sorted[a]) > 0);
            assert(identity.to_multiset().count(sorted[a]) > 0);
            assert(identity.contains(sorted[a]));
        }
        assert forall|i: int| 0 <= i < n implies #[trigger] names(sorted, i) by {
            assert(identity[i] == i);
            assert(identity.contains(i as usize));
            assert(identity.to_multiset().count(i as usize) > 0);
            assert(sorted.to_multiset().count(i as usize) > 0);
            assert(sorted.contains(i as usize));
        }
        assert(identity.no_duplicates());
        identity.lemma_multiset_has_no_duplicates();
        sorted.lemma_multiset_has_no_duplicates_conv();
    }
    order
}

/// The first place along `order` at which a key equals the key in front of
/// it, if there is one.
fn equal_neighbours<V>(order: &IndexBuffer, entries: &Vec<(Vec<u8>, V)>) -> (r: Option<usize>)
    requires
        is_sorted_arrangement(indices(*order), entry_keys(entries@)),
    ensures
        match r {
            Some(b) => {
                &&& 1 <= b < entries.len()
                &&& stepwise_ascending(indices(*order), entry_keys(entries@), b as int)
                &&& entry_keys(entries@)[indices(*order)[b - 1] as int] == entry_keys(
                    entries@,
                )[indices(*order)[b as int] as int]
            },
            None => stepwise_ascending(
                indices(*order),
                entry_keys(entries@),
                entries.len() as int,
            ),
        },
{
    let n = entries.len();
    let ghost keys = entry_keys(entries@);
    let ghost sorted = indices(*order);
    let mut b: usize = 1;
    while b < n
        invariant
            1 <= b,
            n == entries.len(),
            keys == entry_keys(entries@),
            sorted == indices(*order),
            is_sorted_arrangement(sorted, keys),
            stepwise_ascending(sorted, keys, b as int),
        decreases n - b,
    {
        let before = indices_get(order, b - 1);
        let here = indices_get(order, b);
        assert(sorted[b - 1] < n && sorted[b as int] < n);
        match compare_bytes(entries[before].0.as_slice(), entries[here].0.as_slice()) {
            KeyOrder::Equal => {
                return Some(b);
            },
            _ => {},
        }
        proof {
            assert(!lex_less(keys[sorted[b as int] as int], keys[sorted[b - 1] as int]));
        }
        b = b + 1;
    }
    None
}

/// The positions of the entries in ascending key order, or `DuplicateKey` if
/// two entries have the same key.
pub(crate) fn key_order<V>(entries: &Vec<(Vec<u8>, V)>) -> (r: Result<IndexBuffer, EncodeError>)
    ensures
        match r {
            Ok(order) => is_key_order(indices(order), entry_keys(entries@)) && distinct(
                entry_keys(entries@),
            ),
            Err(e) => e == EncodeError::DuplicateKey && !distinct(entry_keys(entries@)),
        },
{
    let ghost keys = entry_keys(entries@);
    let order = sorted_positions(entries);
    let ghost sorted = indices(order);
    match equal_neighbours(&order, entries) {
        Some(b) => {
            proof {
                let before = sorted[b - 1];
                let here = sorted[b as int];
                assert(before != here);
                if before < here {
                    assert(keys[before as int] == keys[here as int]);
                } else {
                    assert(keys[here as int] == keys[before as int]);
                }
            }
            Err(EncodeError::DuplicateKey)
        },
        None => {
            proof {
                assert forall|a: int, b: int| 0 <= a < b < sorted.len() implies lex_less(
                    keys[#[trigger] sorted[a] as int],
                    keys[#[trigger] sorted[b] as int],
                ) by {
                    lemma_stepwise_ascending(sorted, keys, sorted.len() as int, a, b);
                }
                assert(is_key_order(sorted, keys));
                let marked = Seq::new(keys.len(), |i: int| (keys[i], 0int));
                lemma_key_order_sorts(sorted, keys, marked);
                assert forall|i: int, j: int| 0 <= i < j < keys.len() implies #[trigger] keys[i]
                    != #[trigger] keys[j] by {
                    assert(marked[i].0 != marked[j].0);
                }
            }
            Ok(order)
        },
    }
}

/// The position of an entry whose key another entry has too, if there is
/// one: an entry with the least such key.
pub fn duplicate_key<V>(entries: &Vec<(Vec<u8>, V)>) -> (r: Option<usize>)
    ensures
        match r {
            Some(i) => {
                &&& i < entries.len()
                &&& exists|j: int|
                    0 <= j < entries.len() && j != i && #[trigger] entry_keys(entries@)[j]
                        == entry_keys(entries@)[i as int]
                &&& forall|x: int, y: int|
                    0 <= x < y < entries.len() && #[trigger] entry_keys(entries@)[x]
                        == #[trigger] entry_keys(entries@)[y] ==> !lex_less(
                        entry_keys(entries@)[x],
                        entry_keys(entries@)[i as int],
                    )
            },
            None => distinct(entry_keys(entries@)),
        },
{
    let ghost keys = entry_keys(entries@);
    let order = sorted_positions(entries);
    let ghost sorted = indices(order);
    match equal_neighbours(&order, entries) {
        Some(b) => {
            let found = indices_get(&order, b - 1);
            proof {
                let other = sorted[b as int];
                assert(other != found);
                assert(keys[other as int] == keys[found as int]);
                assert forall|x: int, y: int|
                    0 <= x < y < entries.len() && #[trigger] keys[x]
                        == #[trigger] keys[y] implies !lex_less(keys[x], keys[found as int]) by {
                    if lex_less(keys[x], keys[found as int]) {
                        assert(names(sorted, x));
                        assert(names(sorted, y));
                        let c = choose|c: int| 0 <= c < sorted.len() && #[trigger] sorted[c] == x;
                        let d = choose|d: int| 0 <= d < sorted.len() && #[trigger] sorted[d] == y;
                        lemma_lex_less_irreflexive(keys[x]);
                        lemma_lex_less_irreflexive(keys[found as int]);
                        if c > b - 1 {
                            assert(!lex_less(keys[sorted[c] as int], keys[sorted[b - 1] as int]));
                        }
                        if d > b - 1 {
                            assert(!lex_less(keys[sorted[d] as int], keys[sorted[b - 1] as int]));
                        }
                        assert(c < b - 1 && d < b - 1);
                        if c < d {
                            lemma_stepwise_ascending(sorted, keys, b as int, c, d);
                        } else {
                            lemma_stepwise_ascending(sorted, keys, b as int, d, c);
                        }
                    }
                }
            }
            Some(found)
        },
        None => {
            proof {
                assert forall|a: int, b: int| 0 <= a < b < sorted.len() implies lex_less(
                    keys[#[trigger] sorted[a] as int],
                    keys[#[trigger] sorted[b] as int],
                ) by {
                    lemma_stepwise_ascending(sorted, keys, sorted.len() as int, a, b);
                }
                assert(is_key_order(sorted, keys));
                let marked = Seq::new(keys.len(), |i: int| (keys[i], 0int));
                lemma_key_order_sorts(sorted, keys, marked);
                assert forall|i: int, j: int| 0 <= i < j < keys.len() implies #[trigger] keys[i]
                    != #[trigger] keys[j] by {
                    assert(marked[i].0 != marked[j].0);
                }
            }
            None
        },
    }
}

} // verus!

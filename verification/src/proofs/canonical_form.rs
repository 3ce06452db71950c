//! The canonical form of a value, and that it has the value's encoding.

use crate::encoding::{
    ascending_keys, canonical, distinct_keys, encoded_entries, encoding, lemma_ascending_unique,
    lemma_encoded_entries, lemma_sort_entries, list_encoding, sort_entries, well_keyed,
};
use crate::integer::Integer;
use crate::order::lex_less;
use crate::proofs::completeness::lemma_canonical_dictionary_encoding;
use crate::value::ValueView;
use vstd::prelude::*;

verus! {

/// The value with the entries of every dictionary in it put in ascending key
/// order: its canonical form.
pub open spec fn canonical_form(v: ValueView) -> ValueView
    decreases v,
{
    match v {
        ValueView::Integer(n) => v,
        ValueView::ByteString(bytes) => v,
        ValueView::List(items) => ValueView::List(canonical_items(items)),
        ValueView::Dictionary(entries) => ValueView::Dictionary(
            sort_entries(canonical_entries(entries)),
        ),
    }
}

/// The canonical form of each item.
pub open spec fn canonical_items(items: Seq<ValueView>) -> Seq<ValueView>
    decreases items,
{
    if items.len() == 0 {
        Seq::empty()
    } else {
        canonical_items(items.drop_last()).push(canonical_form(items.last()))
    }
}

/// Each entry with its value in canonical form.
pub open spec fn canonical_entries(entries: Seq<(Seq<u8>, ValueView)>) -> Seq<
    (Seq<u8>, ValueView),
>
    decreases entries,
{
    if entries.len() == 0 {
        Seq::empty()
    } else {
        canonical_entries(entries.drop_last()).push(
            (entries.last().0, canonical_form(entries.last().1)),
        )
    }
}

/// At each position of `canonical_items` stands the canonical form of the
/// item at that position.
pub proof fn lemma_canonical_items(items: Seq<ValueView>)
    ensures
        canonical_items(items).len() == items.len(),
        forall|i: int|
            0 <= i < items.len() ==> #[trigger] canonical_items(items)[i] == canonical_form(
                items[i],
            ),
    decreases items.len(),
{
    if items.len() > 0 {
        lemma_canonical_items(items.drop_last());
    }
}

/// At each position of `canonical_entries` stands the key at that position
/// with the canonical form of its value.
pub proof fn lemma_canonical_entries(entries: Seq<(Seq<u8>, ValueView)>)
    ensures
        canonical_entries(entries).len() == entries.len(),
        forall|i: int|
            0 <= i < entries.len() ==> #[trigger] canonical_entries(entries)[i] == (
                entries[i].0,
                canonical_form(entries[i].1),
            ),
    decreases entries.len(),
{
    if entries.len() > 0 {
        lemma_canonical_entries(entries.drop_last());
    }
}

/// Lists whose items have the same texts, position by position, have the
/// same text.
pub proof fn lemma_list_encoding_pointwise(a: Seq<ValueView>, b: Seq<ValueView>)
    requires
        a.len() == b.len(),
        forall|i: int| 0 <= i < a.len() ==> encoding(#[trigger] a[i]) == encoding(b[i]),
    ensures
        list_encoding(a) == list_encoding(b),
    decreases a.len(),
{
    if a.len() > 0 {
        assert forall|i: int| 0 <= i < a.drop_last().len() implies encoding(
            #[trigger] a.drop_last()[i],
        ) == encoding(b.drop_last()[i]) by {
            assert(a.drop_last()[i] == a[i]);
        }
        lemma_list_encoding_pointwise(a.drop_last(), b.drop_last());
        assert(encoding(a[a.len() - 1]) == encoding(b[a.len() - 1]));
    }
}

/// The canonical form of a value that can be encoded is in canonical form
/// and has the value's encoding.
pub proof fn lemma_canonical_form(v: ValueView)
    requires
        well_keyed(v),
    ensures
        canonical(canonical_form(v)),
        encoding(canonical_form(v)) == encoding(v),
    decreases v,
{
    match v {
        ValueView::Integer(_) => {},
        ValueView::ByteString(_) => {},
        ValueView::List(items) => {
            let forms = canonical_items(items);
            lemma_canonical_items(items);
            assert forall|i: int| 0 <= i < forms.len() implies canonical(#[trigger] forms[i])
                && encoding(forms[i]) == encoding(items[i]) by {
                lemma_canonical_form(items[i]);
            }
            lemma_list_encoding_pointwise(forms, items);
        },
        ValueView::Dictionary(entries) => {
            let forms = canonical_entries(entries);
            lemma_canonical_entries(entries);
            assert forall|i: int| 0 <= i < forms.len() implies canonical(
                (#[trigger] forms[i]).1,
            ) && encoding(forms[i].1) == encoding(entries[i].1) by {
                lemma_canonical_form(entries[i].1);
            }
            assert(distinct_keys(forms)) by {
                assert forall|i: int, j: int| 0 <= i < j < forms.len() implies #[trigger] forms[i].0
                    != #[trigger] forms[j].0 by {
                    assert(entries[i].0 != entries[j].0);
                }
            }
            let sorted = sort_entries(forms);
            lemma_sort_entries(forms);
            assert forall|k: int| 0 <= k < sorted.len() implies canonical(
                (#[trigger] sorted[k]).1,
            ) by {
                assert(sorted.contains(sorted[k]));
                assert(forms.contains(sorted[k]));
                let i = choose|i: int| 0 <= i < forms.len() && forms[i] == sorted[k];
                assert(canonical(forms[i].1));
            }
            lemma_canonical_dictionary_encoding(sorted);
            let left = encoded_entries(sorted);
            let texts = encoded_entries(entries);
            let right = sort_entries(texts);
            lemma_encoded_entries(sorted);
            lemma_encoded_entries(entries);
            assert(distinct_keys(texts)) by {
                assert forall|i: int, j: int| 0 <= i < j < texts.len() implies #[trigger] texts[i].0
                    != #[trigger] texts[j].0 by {
                    assert(entries[i].0 != entries[j].0);
                }
            }
            lemma_sort_entries(texts);
            assert(ascending_keys(left)) by {
                assert forall|a: int, b: int| 0 <= a < b < left.len() implies lex_less(
                    #[trigger] left[a].0,
                    #[trigger] left[b].0,
                ) by {
                    assert(lex_less(sorted[a].0, sorted[b].0));
                }
            }
            assert forall|e: (Seq<u8>, Seq<u8>)| #[trigger]
                left.contains(e) <==> right.contains(e) by {
                if left.contains(e) {
                    let k = choose|k: int| 0 <= k < left.len() && left[k] == e;
                    assert(sorted.contains(sorted[k]));
                    assert(forms.contains(sorted[k]));
                    let i = choose|i: int| 0 <= i < forms.len() && forms[i] == sorted[k];
                    assert(texts[i] == e);
                    assert(texts.contains(e));
                }
                if texts.contains(e) {
                    let i = choose|i: int| 0 <= i < texts.len() && texts[i] == e;
                    assert(forms.contains(forms[i]));
                    assert(sorted.contains(forms[i]));
                    let k = choose|k: int| 0 <= k < sorted.len() && sorted[k] == forms[i];
                    assert(left[k] == e);
                }
            }
            lemma_ascending_unique(left, right);
        },
    }
}

} // verus!

//! The text of a graph is the encoding of the value that the graph unfolds
//! to.

use crate::encoding::{
    ascending_keys, distinct_keys, encoded_entries, encoding, entries_encoding,
    lemma_ascending_unique, lemma_encoded_entries, lemma_sort_entries, list_encoding, sort_entries,
    well_keyed,
};
use crate::graph::{
    count_free, item_values, items_encoding, lemma_enter, node_encoding, node_value, NodeView,
    pair_values, pairs_encoding,
};
use crate::order::lex_less;
use vstd::prelude::*;

verus! {

/// At each position of `item_values` stands the value of the node at that
/// position.
pub proof fn lemma_item_values(g: Seq<NodeView>, items: Seq<usize>, entered: Set<usize>)
    ensures
        item_values(g, items, entered).len() == items.len(),
        forall|i: int|
            0 <= i < items.len() ==> #[trigger] item_values(g, items, entered)[i] == node_value(
                g,
                items[i],
                entered,
            ),
    decreases items.len(),
{
    if items.len() > 0 {
        lemma_item_values(g, items.drop_last(), entered);
    }
}

/// At each position of `pair_values` stands the key at that position with
/// the value of its node.
pub proof fn lemma_pair_values(
    g: Seq<NodeView>,
    entries: Seq<(Seq<u8>, usize)>,
    entered: Set<usize>,
)
    ensures
        pair_values(g, entries, entered).len() == entries.len(),
        forall|i: int|
            0 <= i < entries.len() ==> #[trigger] pair_values(g, entries, entered)[i] == (
                entries[i].0,
                node_value(g, entries[i].1, entered),
            ),
    decreases entries.len(),
{
    if entries.len() > 0 {
        lemma_pair_values(g, entries.drop_last(), entered);
    }
}

/// Each entry's key with the text of the node that is its value.
pub open spec fn pair_texts(
    g: Seq<NodeView>,
    entries: Seq<(Seq<u8>, usize)>,
    entered: Set<usize>,
) -> Seq<(Seq<u8>, Seq<u8>)> {
    Seq::new(
        entries.len(),
        |k: int| (entries[k].0, node_encoding(g, entries[k].1, entered)->Ok_0),
    )
}

/// Entries that have a text together have values with a text each, and the
/// text of all is the text of the keys with those texts.
pub proof fn lemma_pairs_with_text(
    g: Seq<NodeView>,
    entries: Seq<(Seq<u8>, usize)>,
    entered: Set<usize>,
)
    requires
        pairs_encoding(g, entries, entered) is Ok,
    ensures
        forall|k: int|
            0 <= k < entries.len() ==> node_encoding(g, (#[trigger] entries[k]).1, entered) is Ok,
        pairs_encoding(g, entries, entered)->Ok_0 == entries_encoding(
            pair_texts(g, entries, entered),
        ),
    decreases entries.len(),
{
    if entries.len() > 0 {
        let front = entries.drop_last();
        lemma_pairs_with_text(g, front, entered);
        assert forall|k: int| 0 <= k < entries.len() implies node_encoding(
            g,
            (#[trigger] entries[k]).1,
            entered,
        ) is Ok by {
            if k < entries.len() - 1 {
                assert(front[k] == entries[k]);
            }
        }
        assert(pair_texts(g, entries, entered).drop_last() =~= pair_texts(g, front, entered));
        assert(pairs_encoding(g, entries, entered)->Ok_0 =~= entries_encoding(
            pair_texts(g, entries, entered),
        ));
    } else {
        assert(pair_texts(g, entries, entered) =~= Seq::<(Seq<u8>, Seq<u8>)>::empty());
    }
}

/// The text of a node is the encoding of the value that the node unfolds
/// to, and that value can be encoded.
pub proof fn lemma_node_text_is_encoding(g: Seq<NodeView>, id: usize, entered: Set<usize>)
    requires
        node_encoding(g, id, entered) is Ok,
    ensures
        well_keyed(node_value(g, id, entered)),
        encoding(node_value(g, id, entered)) == node_encoding(g, id, entered)->Ok_0,
    decreases count_free(g.len(), entered), 0nat, 0nat,
{
    match g[id as int] {
        NodeView::List(items) => {
            lemma_enter(g.len(), entered, id);
            lemma_items_text_is_encoding(g, items, entered.insert(id));
        },
        NodeView::Dictionary(entries) => {
            lemma_enter(g.len(), entered, id);
            let inner = entered.insert(id);
            let sorted = sort_entries(entries);
            let values = pair_values(g, entries, inner);
            lemma_pair_values(g, entries, inner);
            lemma_sort_entries(entries);
            lemma_pairs_with_text(g, sorted, inner);
            let left = pair_texts(g, sorted, inner);
            let texts = encoded_entries(values);
            lemma_encoded_entries(values);
            assert forall|i: int| 0 <= i < entries.len() implies well_keyed(
                (#[trigger] values[i]).1,
            ) && texts[i] == (
                entries[i].0,
                node_encoding(g, entries[i].1, inner)->Ok_0,
            ) by {
                assert(entries.contains(entries[i]));
                assert(sorted.contains(entries[i]));
                let k = choose|k: int| 0 <= k < sorted.len() && sorted[k] == entries[i];
                assert(node_encoding(g, sorted[k].1, inner) is Ok);
                lemma_node_text_is_encoding(g, entries[i].1, inner);
            }
            assert(distinct_keys(values)) by {
                assert forall|i: int, j: int|
                    0 <= i < j < values.len() implies #[trigger] values[i].0
                    != #[trigger] values[j].0 by {
                    assert(entries[i].0 != entries[j].0);
                }
            }
            assert(distinct_keys(texts)) by {
                assert forall|i: int, j: int| 0 <= i < j < texts.len() implies #[trigger] texts[i].0
                    != #[trigger] texts[j].0 by {
                    assert(entries[i].0 != entries[j].0);
                }
            }
            let right = sort_entries(texts);
            lemma_sort_entries(texts);
            assert(ascending_keys(left)) by {
                assert forall|a: int, b: int| 0 <= a < b < left.len() implies lex_less(
                    #[trigger] left[a].0,
                    #[trigger] left[b].0,
                ) by {
                    assert(lex_less(sorted[a].0, sorted[b].0));
                }
            }
            assert forall|e: (Seq<u8>, Seq<u8>)| #[trigger]
                left.contains(e) <==> right.contains(e) by {
                if left.contains(e) {
                    let k = choose|k: int| 0 <= k < left.len() && left[k] == e;
                    assert(sorted.contains(sorted[k]));
                    assert(entries.contains(sorted[k]));
                    let i = choose|i: int| 0 <= i < entries.len() && entries[i] == sorted[k];
                    assert(texts[i] == e);
                    assert(texts.contains(e));
                }
                if texts.contains(e) {
                    let i = choose|i: int| 0 <= i < texts.len() && texts[i] == e;
                    assert(entries.contains(entries[i]));
                    assert(sorted.contains(entries[i]));
                    let k = choose|k: int| 0 <= k < sorted.len() && sorted[k] == entries[i];
                    assert(left[k] == e);
                }
            }
            lemma_ascending_unique(left, right);
        },
        _ => {},
    }
}

/// The text of items is the texts of the values that their nodes unfold to,
/// one after the other, and those values can be encoded.
pub proof fn lemma_items_text_is_encoding(
    g: Seq<NodeView>,
    items: Seq<usize>,
    entered: Set<usize>,
)
    requires
        items_encoding(g, items, entered) is Ok,
    ensures
        forall|k: int|
            0 <= k < items.len() ==> well_keyed(#[trigger] item_values(g, items, entered)[k]),
        item_values(g, items, entered).len() == items.len(),
        list_encoding(item_values(g, items, entered)) == items_encoding(g, items, entered)->Ok_0,
    decreases count_free(g.len(), entered), 1nat, items.len(),
{
    lemma_item_values(g, items, entered);
    if items.len() > 0 {
        let front = items.drop_last();
        lemma_items_text_is_encoding(g, front, entered);
        lemma_node_text_is_encoding(g, items.last(), entered);
        lemma_item_values(g, front, entered);
        assert(item_values(g, items, entered).drop_last() =~= item_values(g, front, entered));
        assert forall|k: int| 0 <= k < items.len() implies well_keyed(
            #[trigger] item_values(g, items, entered)[k],
        ) by {
            if k < items.len() - 1 {
                assert(item_values(g, items, entered)[k] == item_values(g, front, entered)[k]);
            }
        }
    }
}

} // verus!

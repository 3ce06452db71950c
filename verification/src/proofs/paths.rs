//! Paths in a graph, and that a path back to a container leaves the graph
//! without a text.

use crate::encoding::{distinct_keys, lemma_sort_entries, sort_entries};
use crate::graph::{
    items_encoding, lemma_items_failure, lemma_pairs_failure, node_encoding, NodeView,
    pairs_encoding,
};
use vstd::prelude::*;

verus! {

/// The node at `a` is a container that holds the node at `b`.
pub open spec fn holds_node(g: Seq<NodeView>, a: usize, b: usize) -> bool {
    a < g.len() && match g[a as int] {
        NodeView::List(items) => items.contains(b),
        NodeView::Dictionary(entries) => exists|k: int|
            0 <= k < entries.len() && (#[trigger] entries[k]).1 == b,
        _ => false,
    }
}

/// The node at `id` is a list or a dictionary.
pub open spec fn is_container(g: Seq<NodeView>, id: usize) -> bool {
    id < g.len() && (g[id as int] is List || g[id as int] is Dictionary)
}

/// Each node of `path` but the last holds the node behind it.
pub open spec fn is_path(g: Seq<NodeView>, path: Seq<usize>) -> bool {
    &&& path.len() >= 1
    &&& forall|k: int| 0 <= k < path.len() - 1 ==> holds_node(g, #[trigger] path[k], path[k + 1])
}

/// Items of which one has no text have none together.
pub proof fn lemma_item_without_text(
    g: Seq<NodeView>,
    items: Seq<usize>,
    entered: Set<usize>,
    k: int,
)
    requires
        0 <= k < items.len(),
        node_encoding(g, items[k], entered) is Err,
    ensures
        items_encoding(g, items, entered) is Err,
{
    assert(items.take(k + 1).drop_last() =~= items.take(k));
    assert(items.take(k + 1).last() == items[k]);
    if items_encoding(g, items.take(k), entered) is Err {
        lemma_items_failure(g, items, entered, k);
    } else {
        lemma_items_failure(g, items, entered, k + 1);
    }
}

/// Entries of which one has a value without text have no text together.
pub proof fn lemma_pair_without_text(
    g: Seq<NodeView>,
    entries: Seq<(Seq<u8>, usize)>,
    entered: Set<usize>,
    k: int,
)
    requires
        0 <= k < entries.len(),
        node_encoding(g, entries[k].1, entered) is Err,
    ensures
        pairs_encoding(g, entries, entered) is Err,
{
    assert(entries.take(k + 1).drop_last() =~= entries.take(k));
    assert(entries.take(k + 1).last() == entries[k]);
    if pairs_encoding(g, entries.take(k), entered) is Err {
        lemma_pairs_failure(g, entries, entered, k);
    } else {
        lemma_pairs_failure(g, entries, entered, k + 1);
    }
}

/// A container that holds a node without text, where the container is
/// entered, has no text.
pub proof fn lemma_held_without_text(
    g: Seq<NodeView>,
    id: usize,
    entered: Set<usize>,
    held: usize,
)
    requires
        holds_node(g, id, held),
        !entered.contains(id),
        node_encoding(g, held, entered.insert(id)) is Err,
    ensures
        node_encoding(g, id, entered) is Err,
{
    match g[id as int] {
        NodeView::List(items) => {
            let k = choose|k: int| 0 <= k < items.len() && items[k] == held;
            lemma_item_without_text(g, items, entered.insert(id), k);
        },
        NodeView::Dictionary(entries) => {
            if distinct_keys(entries) {
                let k = choose|k: int| 0 <= k < entries.len() && (#[trigger] entries[k]).1 == held;
                let sorted = sort_entries(entries);
                lemma_sort_entries(entries);
                assert(entries.contains(entries[k]));
                assert(sorted.contains(entries[k]));
                let m = choose|m: int| 0 <= m < sorted.len() && sorted[m] == entries[k];
                lemma_pair_without_text(g, sorted, entered.insert(id), m);
            }
        },
        _ => {},
    }
}

/// A node from which a path leads to a container that is entered has no
/// text.
pub proof fn lemma_path_to_entered(g: Seq<NodeView>, path: Seq<usize>, entered: Set<usize>)
    requires
        is_path(g, path),
        is_container(g, path.last()),
        entered.contains(path.last()),
    ensures
        node_encoding(g, path[0], entered) is Err,
    decreases path.len(),
{
    let id = path[0];
    if path.len() >= 2 {
        assert(holds_node(g, path[0], path[1]));
    }
    if !entered.contains(id) {
        let rest = path.skip(1);
        assert(is_path(g, rest)) by {
            assert forall|k: int| 0 <= k < rest.len() - 1 implies holds_node(
                g,
                #[trigger] rest[k],
                rest[k + 1],
            ) by {
                assert(holds_node(g, path[k + 1], path[k + 2]));
            }
        }
        lemma_path_to_entered(g, rest, entered.insert(id));
        lemma_held_without_text(g, id, entered, path[1]);
    }
}

/// A node from which a path leads to a container that a path leads back to
/// has no text, whatever is entered.
pub proof fn lemma_path_to_cycle(
    g: Seq<NodeView>,
    path: Seq<usize>,
    cycle: Seq<usize>,
    entered: Set<usize>,
)
    requires
        is_path(g, path),
        is_path(g, cycle),
        cycle.len() >= 2,
        cycle[0] == path.last(),
        cycle.last() == path.last(),
    ensures
        node_encoding(g, path[0], entered) is Err,
    decreases path.len(),
{
    let id = path[0];
    assert(holds_node(g, cycle[0], cycle[1]));
    if path.len() >= 2 {
        assert(holds_node(g, path[0], path[1]));
    }
    if !entered.contains(id) {
        if path.len() == 1 {
            let rest = cycle.skip(1);
            assert(is_path(g, rest)) by {
                assert forall|k: int| 0 <= k < rest.len() - 1 implies holds_node(
                    g,
                    #[trigger] rest[k],
                    rest[k + 1],
                ) by {
                    assert(holds_node(g, cycle[k + 1], cycle[k + 2]));
                }
            }
            lemma_path_to_entered(g, rest, entered.insert(id));
            lemma_held_without_text(g, id, entered, cycle[1]);
        } else {
            let rest = path.skip(1);
            assert(is_path(g, rest)) by {
                assert forall|k: int| 0 <= k < rest.len() - 1 implies holds_node(
                    g,
                    #[trigger] rest[k],
                    rest[k + 1],
                ) by {
                    assert(holds_node(g, path[k + 1], path[k + 2]));
                }
            }
            lemma_path_to_cycle(g, rest, cycle, entered.insert(id));
            lemma_held_without_text(g, id, entered, path[1]);
        }
    }
}

} // verus!

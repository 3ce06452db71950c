//! Encoding a graph of objects that may share parts of each other, or
//! contain themselves.
//!
//! A [`Value`](crate::value::Value) owns what it contains, so it is a tree. An
//! object graph of a host environment is none: one list may be reachable on
//! two paths, and a list may contain itself. Here such a graph is an arena of
//! nodes, and a node names what it contains by position. A container that is
//! reached while it is being written is a cycle, and fails the encoding.

use crate::encode::{encode_int, encode_str};
use crate::encoding::{distinct_keys, integer_encoding, sort_entries, string_encoding};
use crate::error::{EncodeError, GraphError};
use crate::integer::Integer;
use crate::keys::{arranged, entry_keys, key_order, lemma_key_order_sorts, positions_below};
use crate::outside::{indices, indices_get, indices_len, put_u8, IndexBuffer};
use crate::value::ValueView;
use std::collections::HashSet;
use vstd::prelude::*;
use vstd::std_specs::hash::{
    axiom_random_state_builds_valid_hashers, axiom_set_contains_deref_key,
    axiom_set_deref_key_removed, axiom_usize_obeys_hash_table_key_model,
};

verus! {

/// One object of a graph. A container names its items by their positions in
/// the graph.
#[derive(Clone, Debug, PartialEq, Eq)]
pub enum Node {
    /// A signed integer of any magnitude.
    Integer(Integer),
    /// A sequence of bytes.
    ByteString(Vec<u8>),
    /// A sequence of nodes.
    List(Vec<usize>),
    /// Keys with the nodes that are their values.
    Dictionary(Vec<(Vec<u8>, usize)>),
    /// An object of a type that Bencode has no form for.
    Unsupported,
}

/// What a [`Node`] denotes.
pub enum NodeView {
    Integer(int),
    ByteString(Seq<u8>),
    List(Seq<usize>),
    Dictionary(Seq<(Seq<u8>, usize)>),
    Unsupported,
}

impl View for Node {
    type V = NodeView;

    open spec fn view(&self) -> NodeView {
        match self {
            Node::Integer(n) => NodeView::Integer(n@),
            Node::ByteString(bytes) => NodeView::ByteString(bytes@),
            Node::List(items) => NodeView::List(items@),
            Node::Dictionary(entries) => NodeView::Dictionary(pairs_view(entries@)),
            Node::Unsupported => NodeView::Unsupported,
        }
    }
}

/// An arena of nodes. A position that the arena does not hold stands for an
/// object without a Bencode form.
#[derive(Clone, Debug, PartialEq, Eq)]
pub struct Graph {
    pub nodes: Vec<Node>,
}

impl View for Graph {
    type V = Seq<NodeView>;

    open spec fn view(&self) -> Seq<NodeView> {
        Seq::new(self.nodes.len() as nat, |i: int| self.nodes[i]@)
    }
}

/// What an encoding is being written into, and the containers that are being
/// written at the moment.
pub struct Context {
    pub buf: Vec<u8>,
    pub seen: HashSet<usize>,
}

/// How many of the first `n` positions are not in `entered`.
pub open spec fn count_free(n: nat, entered: Set<usize>) -> nat
    decreases n,
{
    if n == 0 {
        0
    } else {
        count_free((n - 1) as nat, entered) + if entered.contains((n - 1) as usize) {
            0nat
        } else {
            1nat
        }
    }
}

/// Entering a position leaves no more positions free.
pub proof fn lemma_enter_monotone(n: nat, entered: Set<usize>, id: usize)
    ensures
        count_free(n, entered.insert(id)) <= count_free(n, entered),
    decreases n,
{
    if n > 0 {
        lemma_enter_monotone((n - 1) as nat, entered, id);
    }
}

/// Entering a free position below `n` leaves fewer positions free.
pub proof fn lemma_enter(n: nat, entered: Set<usize>, id: usize)
    requires
        id < n,
        !entered.contains(id),
    ensures
        count_free(n, entered.insert(id)) < count_free(n, entered),
    decreases n,
{
    if n - 1 == id {
        lemma_enter_monotone((n - 1) as nat, entered, id);
    } else {
        lemma_enter((n - 1) as nat, entered, id);
    }
}

/// The failure of the given kind at the node at `id`.
pub open spec fn failure_at(kind: EncodeError, id: usize) -> GraphError {
    GraphError { kind, node: id }
}

/// `text` between `lead` and the closing `e`.
pub open spec fn enclosed(lead: u8, text: Result<Seq<u8>, GraphError>) -> Result<
    Seq<u8>,
    GraphError,
> {
    match text {
        Ok(inner) => Ok(seq![lead] + inner + seq![101u8]),
        Err(e) => Err(e),
    }
}

/// The text of the node at `id`, where the containers in `entered` are being
/// written around it: the text of a value, with each container's items
/// written in their place. It fails at the first node, in the order of
/// writing, that has no text: a position outside the graph or an unsupported
/// object, a container that is in `entered` or is reached again while its
/// own items are written, or a dictionary with two equal keys.
pub open spec fn node_encoding(g: Seq<NodeView>, id: usize, entered: Set<usize>) -> Result<
    Seq<u8>,
    GraphError,
>
    decreases count_free(g.len(), entered), 0nat, 0nat,
{
    if id >= g.len() {
        Err(failure_at(EncodeError::UnsupportedType, id))
    } else {
        match g[id as int] {
            NodeView::Integer(n) => Ok(integer_encoding(n)),
            NodeView::ByteString(bytes) => Ok(string_encoding(bytes)),
            NodeView::Unsupported => Err(failure_at(EncodeError::UnsupportedType, id)),
            NodeView::List(items) => if entered.contains(id) {
                Err(failure_at(EncodeError::Cycle, id))
            } else {
                proof {
                    lemma_enter(g.len(), entered, id);
                }
                enclosed(108u8, items_encoding(g, items, entered.insert(id)))
            },
            NodeView::Dictionary(entries) => if entered.contains(id) {
                Err(failure_at(EncodeError::Cycle, id))
            } else if !distinct_keys(entries) {
                Err(failure_at(EncodeError::DuplicateKey, id))
            } else {
                proof {
                    lemma_enter(g.len(), entered, id);
                }
                enclosed(100u8, pairs_encoding(g, sort_entries(entries), entered.insert(id)))
            },
        }
    }
}

/// The texts of the nodes at `items`, one after the other, or the first
/// failure among them.
pub open spec fn items_encoding(g: Seq<NodeView>, items: Seq<usize>, entered: Set<usize>) -> Result<
    Seq<u8>,
    GraphError,
>
    decreases count_free(g.len(), entered), 1nat, items.len(),
{
    if items.len() == 0 {
        Ok(Seq::empty())
    } else {
        match items_encoding(g, items.drop_last(), entered) {
            Err(e) => Err(e),
            Ok(front) => match node_encoding(g, items.last(), entered) {
                Err(e) => Err(e),
                Ok(text) => Ok(front + text),
            },
        }
    }
}

/// The texts of the entries, one after the other: each key as a byte string,
/// then the text of the node that is its value; or the first failure among
/// them.
pub open spec fn pairs_encoding(
    g: Seq<NodeView>,
    entries: Seq<(Seq<u8>, usize)>,
    entered: Set<usize>,
) -> Result<Seq<u8>, GraphError>
    decreases count_free(g.len(), entered), 1nat, entries.len(),
{
    if entries.len() == 0 {
        Ok(Seq::empty())
    } else {
        match pairs_encoding(g, entries.drop_last(), entered) {
            Err(e) => Err(e),
            Ok(front) => match node_encoding(g, entries.last().1, entered) {
                Err(e) => Err(e),
                Ok(text) => Ok(front + string_encoding(entries.last().0) + text),
            },
        }
    }
}

/// The text of the graph's part that `root` reaches, or the first failure in
/// it.
pub open spec fn graph_encoding(g: Seq<NodeView>, root: usize) -> Result<Seq<u8>, GraphError> {
    node_encoding(g, root, Set::empty())
}

/// The value that the node at `id` unfolds to, where the containers in
/// `entered` are being unfolded around it: each container with the values of
/// its items in their place. It is meant for nodes that have a text.
pub open spec fn node_value(g: Seq<NodeView>, id: usize, entered: Set<usize>) -> ValueView
    decreases count_free(g.len(), entered), 0nat, 0nat,
{
    if id >= g.len() {
        ValueView::Integer(0)
    } else {
        match g[id as int] {
            NodeView::Integer(n) => ValueView::Integer(n),
            NodeView::ByteString(bytes) => ValueView::ByteString(bytes),
            NodeView::Unsupported => ValueView::Integer(0),
            NodeView::List(items) => if entered.contains(id) {
                ValueView::Integer(0)
            } else {
                proof {
                    lemma_enter(g.len(), entered, id);
                }
                ValueView::List(item_values(g, items, entered.insert(id)))
            },
            NodeView::Dictionary(entries) => if entered.contains(id) {
                ValueView::Integer(0)
            } else {
                proof {
                    lemma_enter(g.len(), entered, id);
                }
                ValueView::Dictionary(pair_values(g, entries, entered.insert(id)))
            },
        }
    }
}

/// The values that the nodes at `items` unfold to.
pub open spec fn item_values(g: Seq<NodeView>, items: Seq<usize>, entered: Set<usize>) -> Seq<
    ValueView,
>
    decreases count_free(g.len(), entered), 1nat, items.len(),
{
    if items.len() == 0 {
        Seq::empty()
    } else {
        item_values(g, items.drop_last(), entered).push(node_value(g, items.last(), entered))
    }
}

/// Each key with the value that its node unfolds to.
pub open spec fn pair_values(
    g: Seq<NodeView>,
    entries: Seq<(Seq<u8>, usize)>,
    entered: Set<usize>,
) -> Seq<(Seq<u8>, ValueView)>
    decreases count_free(g.len(), entered), 1nat, entries.len(),
{
    if entries.len() == 0 {
        Seq::empty()
    } else {
        pair_values(g, entries.drop_last(), entered).push(
            (entries.last().0, node_value(g, entries.last().1, entered)),
        )
    }
}

/// A failure among the first items is the failure of all the items.
pub proof fn lemma_items_failure(
    g: Seq<NodeView>,
    items: Seq<usize>,
    entered: Set<usize>,
    k: int,
)
    requires
        0 <= k <= items.len(),
        items_encoding(g, items.take(k), entered) is Err,
    ensures
        items_encoding(g, items, entered) == items_encoding(g, items.take(k), entered),
    decreases items.len() - k,
{
    if k < items.len() {
        assert(items.take(k + 1).drop_last() =~= items.take(k));
        lemma_items_failure(g, items, entered, k + 1);
    } else {
        assert(items.take(k) =~= items);
    }
}

/// A failure among the first entries is the failure of all the entries.
pub proof fn lemma_pairs_failure(
    g: Seq<NodeView>,
    entries: Seq<(Seq<u8>, usize)>,
    entered: Set<usize>,
    k: int,
)
    requires
        0 <= k <= entries.len(),
        pairs_encoding(g, entries.take(k), entered) is Err,
    ensures
        pairs_encoding(g, entries, entered) == pairs_encoding(g, entries.take(k), entered),
    decreases entries.len() - k,
{
    if k < entries.len() {
        assert(entries.take(k + 1).drop_last() =~= entries.take(k));
        lemma_pairs_failure(g, entries, entered, k + 1);
    } else {
        assert(entries.take(k) =~= entries);
    }
}

impl Default for Context {
    /// A context with nothing written and no container entered.
    fn default() -> (ctx: Self)
        ensures
            ctx.buf@ == Seq::<u8>::empty(),
            ctx.seen@ == Set::<usize>::empty(),
    {
        Self { buf: Vec::with_capacity(4096), seen: HashSet::with_capacity(100) }
    }
}

impl Graph {
    /// A graph without nodes.
    pub fn new() -> (graph: Graph)
        ensures
            graph@ == Seq::<NodeView>::empty(),
    {
        let graph = Graph { nodes: Vec::new() };
        assert(graph@ =~= Seq::<NodeView>::empty());
        graph
    }

    /// Adds a node and returns its position.
    pub fn add(&mut self, node: Node) -> (id: usize)
        ensures
            id == old(self)@.len(),
            final(self)@ == old(self)@.push(node@),
    {
        let id = self.nodes.len();
        self.nodes.push(node);
        assert(self@ =~= old(self)@.push(node@));
        id
    }
}

/// Encodes the part of `graph` that `root` reaches into its canonical Bencode
/// text.
///
/// The result is what `graph_encoding` assigns to the graph and the root: the
/// text, or the first failure. No graph makes the encoding run on without
/// end: a container that contains itself, directly or through others, fails
/// it with `Cycle`.
pub fn bencode_graph(graph: &Graph, root: usize) -> (r: Result<Vec<u8>, GraphError>)
    ensures
        match graph_encoding(graph@, root) {
            Ok(text) => r is Ok && r->Ok_0@ == text,
            Err(e) => r is Err && r->Err_0 == e,
        },
{
    let mut ctx = Context::default();
    match encode_node(&mut ctx, graph, root) {
        Ok(()) => {
            assert(ctx.buf@ =~= graph_encoding(graph@, root)->Ok_0);
            Ok(ctx.buf)
        },
        Err(err) => Err(err),
    }
}

/// The entries of a dictionary node, as the graph's view holds them.
pub open spec fn pairs_view(entries: Seq<(Vec<u8>, usize)>) -> Seq<(Seq<u8>, usize)> {
    Seq::new(entries.len(), |i: int| (entries[i].0@, entries[i].1))
}

/// Appends the text of the node at `id` to the context's buffer, where the
/// context's `seen` holds the containers that are being written around it.
/// On success `seen` is as it was.
pub fn encode_node(ctx: &mut Context, graph: &Graph, id: usize) -> (r: Result<(), GraphError>)
    ensures
        match node_encoding(graph@, id, old(ctx).seen@) {
            Ok(text) => {
                &&& r is Ok
                &&& final(ctx).buf@ == old(ctx).buf@ + text
                &&& final(ctx).seen@ == old(ctx).seen@
            },
            Err(e) => r is Err && r->Err_0 == e,
        },
    decreases count_free(graph@.len(), old(ctx).seen@), 0nat,
{
    broadcast use {
        axiom_usize_obeys_hash_table_key_model,
        axiom_random_state_builds_valid_hashers,
        axiom_set_contains_deref_key,
        axiom_set_deref_key_removed,
    };

    if id >= graph.nodes.len() {
        return Err(GraphError { kind: EncodeError::UnsupportedType, node: id });
    }
    let ghost g = graph@;
    let ghost outer = ctx.seen@;
    assert(g[id as int] == graph.nodes[id as int]@);
    match &graph.nodes[id] {
        Node::ByteString(bytes) => {
            encode_str(bytes.as_slice(), &mut ctx.buf);
            Ok(())
        },
        Node::Integer(n) => {
            encode_int(&mut ctx.buf, n);
            Ok(())
        },
        Node::Unsupported => Err(GraphError { kind: EncodeError::UnsupportedType, node: id }),
        Node::List(items) => {
            if ctx.seen.contains(&id) {
                return Err(GraphError { kind: EncodeError::Cycle, node: id });
            }
            ctx.seen.insert(id);
            proof {
                lemma_enter(g.len(), outer, id);
            }
            put_u8(&mut ctx.buf, 108);
            match encode_items(ctx, graph, items) {
                Ok(()) => {},
                Err(e) => {
                    return Err(e);
                },
            }
            put_u8(&mut ctx.buf, 101);
            ctx.seen.remove(&id);
            proof {
                assert(ctx.seen@ =~= outer);
                assert(ctx.buf@ =~= old(ctx).buf@ + node_encoding(g, id, outer)->Ok_0);
            }
            Ok(())
        },
        Node::Dictionary(entries) => {
            if ctx.seen.contains(&id) {
                return Err(GraphError { kind: EncodeError::Cycle, node: id });
            }
            let ghost pairs = pairs_view(entries@);
            let ghost keys = entry_keys(entries@);
            assert(g[id as int]->Dictionary_0 =~= pairs);
            let order = match key_order(entries) {
                Ok(order) => order,
                Err(e) => {
                    proof {
                        if distinct_keys(pairs) {
                            assert forall|i: int, j: int|
                                0 <= i < j < keys.len() implies #[trigger] keys[i]
                                != #[trigger] keys[j] by {
                                assert(pairs[i].0 != pairs[j].0);
                            }
                        }
                    }
                    return Err(GraphError { kind: e, node: id });
                },
            };
            proof {
                lemma_key_order_sorts(indices(order), keys, pairs);
                lemma_enter(g.len(), outer, id);
            }
            ctx.seen.insert(id);
            put_u8(&mut ctx.buf, 100);
            match encode_pairs(ctx, graph, entries, &order) {
                Ok(()) => {},
                Err(e) => {
                    return Err(e);
                },
            }
            put_u8(&mut ctx.buf, 101);
            ctx.seen.remove(&id);
            proof {
                assert(ctx.seen@ =~= outer);
                assert(ctx.buf@ =~= old(ctx).buf@ + node_encoding(g, id, outer)->Ok_0);
            }
            Ok(())
        },
    }
}

/// Appends the texts of the nodes at `items`, in their order.
fn encode_items(ctx: &mut Context, graph: &Graph, items: &Vec<usize>) -> (r: Result<
    (),
    GraphError,
>)
    ensures
        match items_encoding(graph@, items@, old(ctx).seen@) {
            Ok(text) => {
                &&& r is Ok
                &&& final(ctx).buf@ == old(ctx).buf@ + text
                &&& final(ctx).seen@ == old(ctx).seen@
            },
            Err(e) => r is Err && r->Err_0 == e,
        },
    decreases count_free(graph@.len(), old(ctx).seen@), 1nat,
{
    let ghost g = graph@;
    let ghost entered = ctx.seen@;
    let ghost children = items@;
    let mut i: usize = 0;
    assert(ctx.buf@ =~= old(ctx).buf@ + items_encoding(g, children.take(0), entered)->Ok_0);
    while i < items.len()
        invariant
            i <= items.len(),
            g == graph@,
            children == items@,
            entered == old(ctx).seen@,
            ctx.seen@ == entered,
            items_encoding(g, children.take(i as int), entered) is Ok,
            ctx.buf@ == old(ctx).buf@ + items_encoding(g, children.take(i as int), entered)->Ok_0,
        decreases items.len() - i,
    {
        proof {
            assert(children.take(i + 1).drop_last() =~= children.take(i as int));
            assert(children.take(i + 1).last() == items[i as int]);
        }
        match encode_node(ctx, graph, items[i]) {
            Ok(()) => {},
            Err(e) => {
                proof {
                    lemma_items_failure(g, children, entered, i + 1);
                }
                return Err(e);
            },
        }
        assert(ctx.buf@ =~= old(ctx).buf@ + items_encoding(g, children.take(i + 1), entered)->Ok_0);
        i = i + 1;
    }
    proof {
        assert(children.take(i as int) =~= children);
    }
    Ok(())
}

/// Appends the texts of the entries in the order that `order` names: each
/// key as a byte string, then the text of the node that is its value.
fn encode_pairs(
    ctx: &mut Context,
    graph: &Graph,
    entries: &Vec<(Vec<u8>, usize)>,
    order: &IndexBuffer,
) -> (r: Result<(), GraphError>)
    requires
        positions_below(indices(*order), entries@.len()),
    ensures
        match pairs_encoding(
            graph@,
            arranged(pairs_view(entries@), indices(*order)),
            old(ctx).seen@,
        ) {
            Ok(text) => {
                &&& r is Ok
                &&& final(ctx).buf@ == old(ctx).buf@ + text
                &&& final(ctx).seen@ == old(ctx).seen@
            },
            Err(e) => r is Err && r->Err_0 == e,
        },
    decreases count_free(graph@.len(), old(ctx).seen@), 1nat,
{
    let ghost g = graph@;
    let ghost entered = ctx.seen@;
    let ghost positions = indices(*order);
    let ghost sorted = arranged(pairs_view(entries@), positions);
    let n = indices_len(order);
    let mut a: usize = 0;
    assert(ctx.buf@ =~= old(ctx).buf@ + pairs_encoding(g, sorted.take(0), entered)->Ok_0);
    while a < n
        invariant
            a <= n,
            n == positions.len(),
            g == graph@,
            positions == indices(*order),
            positions_below(positions, entries@.len()),
            sorted == arranged(pairs_view(entries@), positions),
            entered == old(ctx).seen@,
            ctx.seen@ == entered,
            pairs_encoding(g, sorted.take(a as int), entered) is Ok,
            ctx.buf@ == old(ctx).buf@ + pairs_encoding(g, sorted.take(a as int), entered)->Ok_0,
        decreases n - a,
    {
        let i = indices_get(order, a);
        proof {
            assert(positions[a as int] < entries@.len());
            assert(sorted[a as int] == (entries[i as int].0@, entries[i as int].1));
            assert(sorted.take(a + 1).drop_last() =~= sorted.take(a as int));
            assert(sorted.take(a + 1).last() == sorted[a as int]);
        }
        encode_str(entries[i].0.as_slice(), &mut ctx.buf);
        match encode_node(ctx, graph, entries[i].1) {
            Ok(()) => {},
            Err(e) => {
                proof {
                    lemma_pairs_failure(g, sorted, entered, a + 1);
                }
                return Err(e);
            },
        }
        assert(ctx.buf@ =~= old(ctx).buf@ + pairs_encoding(g, sorted.take(a + 1), entered)->Ok_0);
        a = a + 1;
    }
    proof {
        assert(sorted.take(a as int) =~= sorted);
    }
    Ok(())
}

} // verus!

//! What holds between decoding and encoding: the laws of the codec, each
//! stated over the functions that the contracts of `bdecode`, `bencode` and
//! `bencode_graph` speak of.

use crate::encoding::{
    ascending_keys, canonical, distinct_keys, encoded_entries, encoding, lemma_ascending_unique,
    lemma_canonical_well_keyed, lemma_encoded_entries, lemma_sort_entries, sort_entries, well_keyed,
};
use crate::error::DecodeError;
use crate::grammar::parse_document;
use crate::graph::{NodeView, graph_encoding, node_value};
use crate::proofs::canonical_form::{canonical_form, lemma_canonical_form};
use crate::proofs::completeness::{lemma_encoding_lead, lemma_parse_value_complete};
use crate::proofs::paths::{is_path, lemma_path_to_cycle};
use crate::proofs::soundness::lemma_parse_value_sound;
use crate::proofs::unfolding::lemma_node_text_is_encoding;
use crate::value::ValueView;
use vstd::prelude::*;

verus! {

/// Decoding accepts canonical text only: a buffer that decodes to a value
/// holds a value in canonical form, each dictionary's keys strictly
/// ascending, and is that value's encoding, byte for byte. Encoding what was
/// decoded gives the buffer back.
pub proof fn lemma_decode_then_encode(bytes: Seq<u8>)
    requires
        parse_document(bytes) is Ok,
    ensures
        canonical(parse_document(bytes)->Ok_0),
        well_keyed(parse_document(bytes)->Ok_0),
        encoding(parse_document(bytes)->Ok_0) == bytes,
{
    lemma_parse_value_sound(bytes, 0);
    lemma_canonical_well_keyed(parse_document(bytes)->Ok_0);
    assert(bytes.subrange(0, bytes.len() as int) =~= bytes);
}

/// Decoding accepts every canonical text: the encoding of a value in
/// canonical form decodes, and to that value. So no two values in canonical
/// form have the same encoding.
pub proof fn lemma_encode_then_decode(v: ValueView)
    requires
        canonical(v),
    ensures
        parse_document(encoding(v)) == Ok::<ValueView, DecodeError>(v),
{
    let text = encoding(v);
    lemma_encoding_lead(v);
    assert(text.subrange(0, text.len() as int) =~= text);
    lemma_parse_value_complete(text, 0, v);
}

/// What encoding emits is canonical text, whatever the order of the entries
/// in the value: the encoding of a value that can be encoded decodes, to the
/// value's canonical form, in which the keys of every dictionary strictly
/// ascend.
pub proof fn lemma_encoding_decodes(v: ValueView)
    requires
        well_keyed(v),
    ensures
        canonical(canonical_form(v)),
        parse_document(encoding(v)) == Ok::<ValueView, DecodeError>(
            canonical_form(v),
        ),
{
    lemma_canonical_form(v);
    lemma_encode_then_decode(canonical_form(v));
}

/// The text of a dictionary does not depend on the order in which its entries
/// are given: two dictionaries that hold the same entries, no key twice, have
/// the same encoding.
pub proof fn lemma_encoding_ignores_entry_order(
    a: Seq<(Seq<u8>, ValueView)>,
    b: Seq<(Seq<u8>, ValueView)>,
)
    requires
        distinct_keys(a),
        distinct_keys(b),
        forall|e: (Seq<u8>, ValueView)| #[trigger] a.contains(e) <==> b.contains(e),
    ensures
        encoding(ValueView::Dictionary(a)) == encoding(ValueView::Dictionary(b)),
{
    let ta = encoded_entries(a);
    let tb = encoded_entries(b);
    lemma_encoded_entries(a);
    lemma_encoded_entries(b);
    assert(distinct_keys(ta)) by {
        assert forall|i: int, j: int| 0 <= i < j < ta.len() implies #[trigger] ta[i].0
            != #[trigger] ta[j].0 by {
            assert(a[i].0 != a[j].0);
        }
    }
    assert(distinct_keys(tb)) by {
        assert forall|i: int, j: int| 0 <= i < j < tb.len() implies #[trigger] tb[i].0
            != #[trigger] tb[j].0 by {
            assert(b[i].0 != b[j].0);
        }
    }
    lemma_sort_entries(ta);
    lemma_sort_entries(tb);
    assert forall|e: (Seq<u8>, Seq<u8>)| #[trigger]
        sort_entries(ta).contains(e) <==> sort_entries(tb).contains(e) by {
        if ta.contains(e) {
            let i = choose|i: int| 0 <= i < ta.len() && ta[i] == e;
            assert(a.contains(a[i]));
            assert(b.contains(a[i]));
            let j = choose|j: int| 0 <= j < b.len() && b[j] == a[i];
            assert(tb[j] == e);
            assert(tb.contains(e));
        }
        if tb.contains(e) {
            let i = choose|i: int| 0 <= i < tb.len() && tb[i] == e;
            assert(b.contains(b[i]));
            assert(a.contains(b[i]));
            let j = choose|j: int| 0 <= j < a.len() && a[j] == b[i];
            assert(ta[j] == e);
            assert(ta.contains(e));
        }
    }
    lemma_ascending_unique(sort_entries(ta), sort_entries(tb));
}

/// The keys of a dictionary stand in its encoding in strictly ascending
/// order, whatever their order in the value, provided no key occurs twice.
pub proof fn lemma_encoding_orders_keys(entries: Seq<(Seq<u8>, ValueView)>)
    requires
        distinct_keys(entries),
    ensures
        ascending_keys(sort_entries(encoded_entries(entries))),
        sort_entries(encoded_entries(entries)).len() == entries.len(),
        forall|i: int|
            0 <= i < entries.len() ==> sort_entries(encoded_entries(entries)).contains(
                (#[trigger] entries[i].0, encoding(entries[i].1)),
            ),
{
    let texts = encoded_entries(entries);
    lemma_encoded_entries(entries);
    assert(distinct_keys(texts)) by {
        assert forall|i: int, j: int| 0 <= i < j < texts.len() implies #[trigger] texts[i].0
            != #[trigger] texts[j].0 by {
            assert(entries[i].0 != entries[j].0);
        }
    }
    lemma_sort_entries(texts);
    assert forall|i: int| 0 <= i < entries.len() implies sort_entries(texts).contains(
        (#[trigger] entries[i].0, encoding(entries[i].1)),
    ) by {
        assert(texts[i] == (entries[i].0, encoding(entries[i].1)));
        assert(texts.contains(texts[i]));
    }
}

/// A graph in which the root reaches a container that contains itself,
/// directly or through other containers, has no encoding: where `path` leads
/// from the root to a container and `cycle` leads from that container back
/// to it, encoding fails.
pub proof fn lemma_cycle_has_no_encoding(
    g: Seq<NodeView>,
    root: usize,
    path: Seq<usize>,
    cycle: Seq<usize>,
)
    requires
        is_path(g, path),
        path[0] == root,
        is_path(g, cycle),
        cycle.len() >= 2,
        cycle[0] == path.last(),
        cycle.last() == cycle[0],
    ensures
        graph_encoding(g, root) is Err,
{
    lemma_path_to_cycle(g, path, cycle, Set::empty());
}

/// What encoding a graph emits is canonical text: it is the encoding of the
/// value that the root unfolds to, and decodes to that value's canonical
/// form.
pub proof fn lemma_graph_text_decodes(g: Seq<NodeView>, root: usize)
    requires
        graph_encoding(g, root) is Ok,
    ensures
        well_keyed(node_value(g, root, Set::empty())),
        graph_encoding(g, root)->Ok_0 == encoding(node_value(g, root, Set::empty())),
        parse_document(graph_encoding(g, root)->Ok_0) == Ok::<ValueView, DecodeError>(
            canonical_form(node_value(g, root, Set::empty())),
        ),
{
    lemma_node_text_is_encoding(g, root, Set::empty());
    lemma_encoding_decodes(node_value(g, root, Set::empty()));
}

} // verus!

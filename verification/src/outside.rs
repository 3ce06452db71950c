//! The calls that leave this crate: appending to the output buffer through
//! `bytes::BufMut`, the small buffer of entry indices that a dictionary's
//! keys are ordered in, a `smallvec::SmallVec`, and two functions of the
//! standard library.
//!
//! Nothing in this file is proved. Each contract states what the called
//! function's source shows, and the rest of the crate is proved from them.

use crate::keys::{entry_keys, non_descending, positions_below};
use crate::order::key_ordering;
use bytes::BufMut;
use smallvec::SmallVec;
use vstd::prelude::*;

verus! {

/// A buffer of entry indices: a `smallvec::SmallVec` that keeps up to eight
/// of them inline.
#[verifier::external_body]
pub struct IndexBuffer {
    inner: SmallVec<[usize; 8]>,
}

/// The items that a buffer of indices holds, first to last.
pub uninterp spec fn indices(buffer: IndexBuffer) -> Seq<usize>;

/// `BufMut::put_u8` on a `Vec<u8>`: the byte is appended.
#[verifier::external_body]
pub(crate) fn put_u8(buf: &mut Vec<u8>, byte: u8)
    ensures
        final(buf)@ == old(buf)@.push(byte),
{
    buf.put_u8(byte);
}

/// `BufMut::put` on a `Vec<u8>`, from a slice: the slice's bytes are appended
/// in order.
#[verifier::external_body]
pub(crate) fn put(buf: &mut Vec<u8>, src: &[u8])
    ensures
        final(buf)@ == old(buf)@ + src@,
{
    buf.put(src);
}

/// `Vec::capacity`: how many bytes the vector can hold without allocating
/// again, which is no less than it holds.
#[verifier::external_body]
pub(crate) fn capacity(buf: &Vec<u8>) -> (n: usize)
    ensures
        n >= buf@.len(),
{
    buf.capacity()
}

/// `SmallVec::new`: an empty buffer.
#[verifier::external_body]
pub(crate) fn indices_new() -> (buffer: IndexBuffer)
    ensures
        indices(buffer) == Seq::<usize>::empty(),
{
    IndexBuffer { inner: SmallVec::new() }
}

/// `SmallVec::push`: the item is appended.
#[verifier::external_body]
pub(crate) fn indices_push(buffer: &mut IndexBuffer, index: usize)
    ensures
        indices(*final(buffer)) == indices(*old(buffer)).push(index),
{
    buffer.inner.push(index);
}

/// `SmallVec::len`: the number of items held.
#[verifier::external_body]
pub(crate) fn indices_len(buffer: &IndexBuffer) -> (n: usize)
    ensures
        n == indices(*buffer).len(),
{
    buffer.inner.len()
}

/// Indexing a `SmallVec` by position: the item at that position.
#[verifier::external_body]
pub(crate) fn indices_get(buffer: &IndexBuffer, position: usize) -> (index: usize)
    requires
        position < indices(*buffer).len(),
    ensures
        index == indices(*buffer)[position as int],
{
    buffer.inner[position]
}

/// `sort_unstable_by` on the buffer's items, which are positions in
/// `entries`, comparing the keys at two positions with `key_ordering`: the
/// items are rearranged, none is lost or added, and afterwards no key comes
/// before the key of an item in front of it.
#[verifier::external_body]
pub(crate) fn indices_sort_by_key<V>(buffer: &mut IndexBuffer, entries: &Vec<(Vec<u8>, V)>)
    requires
        positions_below(indices(*old(buffer)), entries@.len()),
    ensures
        indices(*final(buffer)).to_multiset() == indices(*old(buffer)).to_multiset(),
        non_descending(indices(*final(buffer)), entry_keys(entries@)),
{
    buffer.inner.sort_unstable_by(|a, b| key_ordering(&entries[*a].0, &entries[*b].0));
}

} // verus!

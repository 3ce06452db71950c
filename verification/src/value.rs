//! The data model: a Bencode document as a tree of values.

use crate::integer::Integer;
use vstd::prelude::*;

verus! {

/// A Bencode value.
///
/// A dictionary is held as its entries, in the order in which they were
/// given. Decoding yields them in ascending key order; encoding accepts any
/// order and emits them in ascending key order.
#[derive(Debug, PartialEq, Eq)]
pub enum Value {
    /// A signed integer of any magnitude.
    Integer(Integer),
    /// A sequence of bytes, of any content.
    ByteString(Vec<u8>),
    /// A sequence of values.
    List(Vec<Value>),
    /// Keys with their values.
    Dictionary(Vec<(Vec<u8>, Value)>),
}

/// What a [`Value`] denotes: the same tree over mathematical integers and
/// sequences.
pub enum ValueView {
    Integer(int),
    ByteString(Seq<u8>),
    List(Seq<ValueView>),
    Dictionary(Seq<(Seq<u8>, ValueView)>),
}

/// The tree that a value denotes: each integer as the number it stands for,
/// each vector as the sequence of what its items denote.
pub open spec fn value_view(value: Value) -> ValueView
    decreases value,
{
    match value {
        Value::Integer(n) => ValueView::Integer(n@),
        Value::ByteString(bytes) => ValueView::ByteString(bytes@),
        Value::List(items) => ValueView::List(
            Seq::new(
                items.len() as nat,
                |i: int|
                    if 0 <= i < items.len() {
                        value_view(items[i])
                    } else {
                        ValueView::Integer(0)
                    },
            ),
        ),
        Value::Dictionary(entries) => ValueView::Dictionary(
            Seq::new(
                entries.len() as nat,
                |i: int|
                    if 0 <= i < entries.len() {
                        (entries[i].0@, value_view(entries[i].1))
                    } else {
                        (Seq::<u8>::empty(), ValueView::Integer(0))
                    },
            ),
        ),
    }
}

impl View for Value {
    type V = ValueView;

    open spec fn view(&self) -> ValueView {
        value_view(*self)
    }
}

impl Clone for Value {
    /// A copy of the value, part by part.
    #[verifier::loop_isolation(false)]
    fn clone(&self) -> (copy: Self)
        ensures
            copy@ == self@,
        decreases self,
    {
        match self {
            Value::Integer(n) => Value::Integer(n.clone()),
            Value::ByteString(bytes) => {
                let copy = Value::ByteString(bytes.clone());
                assert(copy@->ByteString_0 =~= bytes@);
                copy
            },
            Value::List(items) => {
                let mut copies: Vec<Value> = Vec::with_capacity(items.len());
                let mut i: usize = 0;
                while i < items.len()
                    invariant
                        i <= items.len(),
                        copies.len() == i,
                        forall|k: int| 0 <= k < i ==> (#[trigger] copies[k])@ == items[k]@,
                    decreases items.len() - i,
                {
                    let item = items[i].clone();
                    copies.push(item);
                    i = i + 1;
                }
                let copy = Value::List(copies);
                assert(copy@->List_0 =~= self@->List_0);
                copy
            },
            Value::Dictionary(entries) => {
                let mut copies: Vec<(Vec<u8>, Value)> = Vec::with_capacity(entries.len());
                let mut i: usize = 0;
                while i < entries.len()
                    invariant
                        i <= entries.len(),
                        copies.len() == i,
                        forall|k: int|
                            0 <= k < i ==> (#[trigger] copies[k]).0@ == entries[k].0@
                                && copies[k].1@ == entries[k].1@,
                    decreases entries.len() - i,
                {
                    let key = entries[i].0.clone();
                    assert(key@ =~= entries[i as int].0@);
                    let value = entries[i].1.clone();
                    copies.push((key, value));
                    i = i + 1;
                }
                let copy = Value::Dictionary(copies);
                assert(copy@->Dictionary_0 =~= self@->Dictionary_0);
                copy
            },
        }
    }
}

} // verus!

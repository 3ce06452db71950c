//! A strict codec for the Bencode serialization format.
//!
//! [`bdecode`] parses a byte buffer into a [`Value`] tree and accepts canonical
//! input only; [`bencode`] serializes a [`Value`] into its canonical bytes.
//! [`bencode_graph`] serializes a [`Graph`], in which objects may be shared,
//! and fails where one contains itself.

pub mod decimal;
pub mod decode;
pub mod encode;
pub mod encoding;
pub mod error;
pub mod grammar;
pub mod graph;
pub mod integer;
pub mod keys;
pub mod laws;
pub mod order;
pub mod outside;
pub mod pool;
pub mod proofs;
pub mod value;

pub use decode::bdecode;
pub use encode::bencode;
pub use error::{DecodeError, DecodeErrorKind, EncodeError, GraphError};
pub use graph::{bencode_graph, Graph, Node};
pub use integer::Integer;
pub use pool::ContextPool;
pub use value::Value;

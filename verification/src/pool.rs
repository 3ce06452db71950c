//! Reuse of encoding contexts, to spare allocations. What is encoded does not
//! depend on it.

use crate::error::GraphError;
use crate::graph::{encode_node, graph_encoding, Context, Graph};
use crate::outside::capacity;
use vstd::prelude::*;
use vstd::slice::slice_to_vec;

verus! {

/// A buffer that has grown beyond this many bytes is not kept.
pub const MIB: usize = 1024 * 1024;

/// The pool keeps no more contexts than this.
pub const POOL_LIMIT: usize = 4;

/// Nothing is written in the context and no container is entered.
pub open spec fn is_fresh(ctx: Context) -> bool {
    ctx.buf@ == Seq::<u8>::empty() && ctx.seen@ == Set::<usize>::empty()
}

/// Contexts that are ready for the next encoding.
pub struct ContextPool {
    idle: Vec<Context>,
}

/// Whether a context whose buffer has the given capacity is kept in a pool
/// that holds `pooled` contexts.
pub fn worth_keeping(capacity: usize, pooled: usize) -> (keep: bool)
    ensures
        keep == (capacity <= MIB && pooled < POOL_LIMIT),
{
    capacity <= MIB && pooled < POOL_LIMIT
}

impl ContextPool {
    /// Every context of the pool is fresh. A pool is made so, and stays so.
    pub closed spec fn well_formed(&self) -> bool {
        forall|i: int| 0 <= i < self.idle.len() ==> is_fresh(#[trigger] self.idle[i])
    }

    /// How many contexts the pool holds.
    pub closed spec fn count(&self) -> nat {
        self.idle.len() as nat
    }

    /// A pool without contexts.
    pub fn new() -> (pool: ContextPool)
        ensures
            pool.well_formed(),
            pool.count() == 0,
    {
        ContextPool { idle: Vec::with_capacity(4) }
    }

    /// A fresh context: one of the pool's, if it has any.
    pub fn get_ctx(&mut self) -> (ctx: Context)
        requires
            old(self).well_formed(),
        ensures
            final(self).well_formed(),
            is_fresh(ctx),
            final(self).count() == if old(self).count() > 0 {
                old(self).count() - 1
            } else {
                0
            },
    {
        if let Some(ctx) = self.idle.pop() {
            return ctx;
        }
        Context::default()
    }

    /// Takes a context back. It is cleared and kept, unless its buffer has
    /// grown large or the pool is full.
    pub fn release_ctx(&mut self, ctx: Context)
        requires
            old(self).well_formed(),
        ensures
            final(self).well_formed(),
            final(self).count() == old(self).count() || (old(self).count() < POOL_LIMIT
                && final(self).count() == old(self).count() + 1),
            old(self).count() >= POOL_LIMIT ==> final(self).count() == old(self).count(),
    {
        let room = capacity(&ctx.buf);
        self.take_back(ctx, room);
    }

    /// Takes back a context whose buffer has the given capacity. It is
    /// cleared and kept where the capacity is no more than `MIB` and the pool
    /// holds fewer than `POOL_LIMIT` contexts; otherwise the pool is left as
    /// it is.
    pub fn take_back(&mut self, ctx: Context, capacity: usize)
        requires
            old(self).well_formed(),
        ensures
            final(self).well_formed(),
            final(self).count() == if capacity <= MIB && old(self).count() < POOL_LIMIT {
                old(self).count() + 1
            } else {
                old(self).count()
            },
    {
        let mut ctx = ctx;
        if worth_keeping(capacity, self.idle.len()) {
            ctx.buf.clear();
            ctx.seen.clear();
            self.idle.push(ctx);
        }
    }

    /// Encodes as [`bencode_graph`](crate::graph::bencode_graph) does, in a
    /// context of the pool.
    pub fn bencode_graph(&mut self, graph: &Graph, root: usize) -> (r: Result<Vec<u8>, GraphError>)
        requires
            old(self).well_formed(),
        ensures
            final(self).well_formed(),
            match graph_encoding(graph@, root) {
                Ok(text) => r is Ok && r->Ok_0@ == text,
                Err(e) => r is Err && r->Err_0 == e,
            },
    {
        let mut ctx = self.get_ctx();
        let result = encode_node(&mut ctx, graph, root);
        match result {
            Ok(()) => {
                let bytes = slice_to_vec(ctx.buf.as_slice());
                assert(bytes@ =~= graph_encoding(graph@, root)->Ok_0);
                self.release_ctx(ctx);
                Ok(bytes)
            },
            Err(err) => {
                self.release_ctx(ctx);
                Err(err)
            },
        }
    }
}

} // verus!

use vstd::prelude::*;

use crate::primitives::ResolverIx;

verus! {

/// One entry of the execution order.
#[derive(Clone, Copy, Debug)]
pub struct OrderInfo {
    pub value: ResolverIx,
    /// The chunk budget in force when the entry was sequenced.
    pub parallelism: u16,
}

/// The execution order. Entries below `size` are committed: the window may
/// run them. Entries from `size` on belong to the open chunk.
pub struct ExecOrder {
    pub size: usize,
    pub items: Vec<OrderInfo>,
}

impl ExecOrder {
    pub fn new() -> (r: ExecOrder)
        ensures
            r.size == 0,
            r.items@.len() == 0,
    {
        ExecOrder { size: 0, items: Vec::new() }
    }
}

/// Groups sequenced entries into chunks of at most `parallelism` entries whose
/// members do not depend on one another.
pub struct Guide {
    /// Order position where the open chunk begins.
    pub chunk_start: usize,
    pub parallelism: usize,
    /// For each sequenced entry, the position where its chunk begins.
    pub chunk_of: Ghost<Seq<int>>,
}

/// The counter that the window raises as it completes entries: every entry
/// below it has run.
pub struct AwaitersBroker {
    pub max_resolved: usize,
}

} // verus!

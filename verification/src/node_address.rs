//! Node addressing for the property graph types.

use vstd::prelude::*;

verus! {

/// An opaque, copyable handle identifying a node within one graph.
///
/// Only locally stored nodes exist today, so the single variant carries the
/// index of the node's row in the owning graph's node table.  The enum form
/// anticipates further addressing schemes; every lookup matches on the
/// variant and fails explicitly for anything it cannot resolve locally.
#[derive(Debug, Clone, Copy, Eq, PartialEq, Hash, Structural)]
pub enum NodeAddress {
    Local(usize),
}

impl NodeAddress {
    /// The row index this address refers to.
    pub open spec fn index(self) -> int {
        match self {
            NodeAddress::Local(id) => id as int,
        }
    }

    /// True when the address can be resolved against a node table of `n` rows.
    pub open spec fn local_within(self, n: int) -> bool {
        match self {
            NodeAddress::Local(id) => id < n,
        }
    }

    /// Builds the address of the local node with the given row index.
    pub fn from_local(node_id: usize) -> (addr: Self)
        ensures
            addr == NodeAddress::Local(node_id),
    {
        NodeAddress::Local(node_id)
    }
}

} // verus!

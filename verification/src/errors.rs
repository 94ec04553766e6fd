//! Error types shared by the property graph implementations.

use vstd::prelude::*;
use crate::node_address::NodeAddress;

verus! {

/// A recoverable failure to resolve a [`NodeAddress`].
///
/// Returned by lookup operations when handed an address variant that the
/// store cannot resolve to a locally owned node.  It is deliberately distinct
/// from the "no path found" outcome of the solvers, which is an empty result
/// sequence and not an error.
#[derive(Debug, Clone, Copy, Eq, PartialEq, Structural)]
pub enum NodeAddressError {
    /// The given address does not represent a local node.
    NodeNotLocal(NodeAddress),
}

} // verus!

//! The [`NodeRelation`] and [`NodePathLink`] value types.

use vstd::prelude::*;
use crate::node_address::NodeAddress;

verus! {

/// One outgoing edge as stored inside a graph: the caller-defined relation
/// value together with the address of the node it leads to.
#[derive(Debug, Clone, PartialEq)]
pub struct NodeRelation<R> {
    /// The relation that leads to the addressed node.
    pub relation: R,
    /// The address of the targeted node.
    pub address: NodeAddress,
}

/// One step of a path produced by a solver: the node reached and the relation
/// traversed to reach it.
///
/// `relation` is `None` only for the first element of a path (the start node,
/// which was not arrived at via any edge); every later element carries
/// `Some(relation)` naming the edge just traversed.
#[derive(Debug, Clone, PartialEq)]
pub struct NodePathLink<R> {
    /// The relation traversed to arrive at this node, absent for the start.
    pub relation: Option<R>,
    /// The address of the node this step arrives at.
    pub address: NodeAddress,
}

impl<R: Clone> NodeRelation<R> {
    /// The path link describing a traversal of this edge: the edge's target
    /// address together with a clone of its relation value.
    pub fn to_path_link(&self) -> (link: NodePathLink<R>)
        ensures
            link.address == self.address,
            link.relation is Some,
            cloned::<R>(self.relation, link.relation->Some_0),
    {
        NodePathLink { relation: Some(self.relation.clone()), address: self.address }
    }
}

} // verus!

//! An in-memory property-graph engine with pluggable path-query solvers.
//!
//! A graph owns nodes carrying caller-defined payload data, linked by
//! directed edges carrying caller-defined relation values.  Nodes are
//! addressed by [`NodeAddress`] handles issued at insertion time.  The
//! solvers in [`path_queries`] answer reachability and shortest-path
//! questions over such a graph: breadth-first search (fewest edges),
//! depth-first search (any path), and A* (cheapest path under a
//! caller-supplied cost function and heuristic).

use vstd::prelude::*;

pub mod errors;
pub mod node_address;
pub mod node_relation;
pub mod embedded_property_graph;
pub mod property_graph;
pub mod path_queries;

pub use crate::errors::NodeAddressError;
pub use crate::node_address::NodeAddress;
pub use crate::node_relation::{NodePathLink, NodeRelation};
pub use crate::embedded_property_graph::EmbeddedPropertyGraph;
pub use crate::property_graph::PropertyGraph;
pub use crate::path_queries::astar::AStarSearch;
pub use crate::path_queries::bfs::BreadthFirstSearch;
pub use crate::path_queries::dfs::DepthFirstSearch;
pub use crate::path_queries::{AdmissibleHeuristic, PathCost};

use crate::path_queries::adjacency_wf;

verus! {

/// One node record of a [`Graph`]: the caller's payload plus the ordered
/// list of outgoing edges.
#[derive(Debug)]
pub struct NodeData<T, R> {
    /// The row index this node occupies in the owning graph's node table.
    pub id: usize,
    /// The caller-defined payload.
    pub data: T,
    /// Outgoing edges, kept in insertion order.
    pub outgoing: Vec<NodeRelation<R>>,
}

/// A property graph storing each node's outgoing edges inside the node
/// record itself.
#[derive(Debug)]
pub struct Graph<T, R> {
    /// The node table; a [`NodeAddress`] indexes into it.
    pub nodes: Vec<NodeData<T, R>>,
}

impl<T, R> Graph<T, R> {
    /// The adjacency view of this graph: for each node row, the sequence of
    /// its outgoing edges in insertion order.
    pub open spec fn adjacency(self) -> Seq<Seq<NodeRelation<R>>> {
        self.nodes@.map_values(|nd: NodeData<T, R>| nd.outgoing@)
    }

    /// Well-formedness: every edge leads to a valid row of this graph.
    ///
    /// `link_to` deliberately does not check its `to` argument, so a caller
    /// can break this property; the solvers require it instead of checking.
    pub open spec fn wf(self) -> bool {
        adjacency_wf(self.adjacency())
    }

    /// Appends a new node with the given payload and no outgoing edges,
    /// returning its address.
    pub fn add(&mut self, data: T) -> (address: NodeAddress)
        ensures
            address == NodeAddress::Local(old(self).nodes@.len() as usize),
            final(self).nodes@.len() == old(self).nodes@.len() + 1,
            forall|i: int|
                0 <= i < old(self).nodes@.len() ==> final(self).nodes@[i] == old(self).nodes@[i],
            final(self).nodes@.last().id == old(self).nodes@.len(),
            final(self).nodes@.last().data == data,
            final(self).nodes@.last().outgoing@ == Seq::<NodeRelation<R>>::empty(),
    {
        let id = self.nodes.len();
        let node = NodeData { id, data, outgoing: Vec::new() };
        self.nodes.push(node);
        NodeAddress::from_local(id)
    }

    /// Resolves a local address to its node record.
    pub fn get_local_node_ref(&self, address: &NodeAddress) -> (r: Result<
        &NodeData<T, R>,
        NodeAddressError,
    >)
        requires
            address.local_within(self.nodes@.len() as int),
        ensures
            r is Ok,
            *r->Ok_0 == self.nodes@[address.index()],
    {
        match address {
            NodeAddress::Local(id) => Ok(&self.nodes[*id]),
        }
    }

    /// Appends a directed edge from the node at `from` to the node at `to`,
    /// labelled with `relation`.
    ///
    /// `to` is not checked: an edge to an address the graph cannot resolve is
    /// a programming error surfaced only when a solver later traverses it.
    pub fn link_to(&mut self, from: &NodeAddress, to: &NodeAddress, relation: R)
        requires
            from.local_within(old(self).nodes@.len() as int),
        ensures
            final(self).nodes@.len() == old(self).nodes@.len(),
            forall|i: int|
                0 <= i < old(self).nodes@.len() && i != from.index() ==> final(self).nodes@[i]
                    == old(self).nodes@[i],
            final(self).nodes@[from.index()].outgoing@ == old(self).nodes@[from.index()].outgoing@.push(
                (NodeRelation { relation, address: *to }),
            ),
            final(self).nodes@[from.index()].id == old(self).nodes@[from.index()].id,
            final(self).nodes@[from.index()].data == old(self).nodes@[from.index()].data,
    {
        match from {
            NodeAddress::Local(from_idx) => {
                let node = &mut self.nodes[*from_idx];
                node.outgoing.push(NodeRelation { relation, address: *to });
            },
        }
    }

    /// Appends a pair of directed edges between `from` and `to`, one in each
    /// direction, each carrying its own copy of `relation`.
    pub fn link_bidir(&mut self, from: &NodeAddress, to: &NodeAddress, relation: R) where
        R: Clone,

        requires
            from.local_within(old(self).nodes@.len() as int),
            to.local_within(old(self).nodes@.len() as int),
        ensures
            final(self).nodes@.len() == old(self).nodes@.len(),
            forall|i: int|
                0 <= i < old(self).nodes@.len() && i != from.index() && i != to.index() ==> final(self).nodes@[i] == old(self).nodes@[i],
            from.index() != to.index() ==> bidir_linked(
                old(self).nodes@[from.index()].outgoing@,
                final(self).nodes@[from.index()].outgoing@,
                relation,
                *to,
            ) && bidir_linked(
                old(self).nodes@[to.index()].outgoing@,
                final(self).nodes@[to.index()].outgoing@,
                relation,
                *from,
            ),
            from.index() == to.index() ==> final(self).nodes@[from.index()].outgoing@.len() == old(self).nodes@[from.index()].outgoing@.len() + 2 && bidir_linked(
                old(self).nodes@[from.index()].outgoing@,
                final(self).nodes@[from.index()].outgoing@.drop_last(),
                relation,
                *to,
            ) && bidir_last_matches(final(self).nodes@[from.index()].outgoing@, relation, *from),
            from.index() != to.index() ==> final(self).nodes@[to.index()].outgoing@.last().relation == relation,
            from.index() == to.index() ==> final(self).nodes@[from.index()].outgoing@.last().relation == relation,
            forall|i: int|
                0 <= i < old(self).nodes@.len() ==> final(self).nodes@[i].id == old(self).nodes@[i].id && final(self).nodes@[i].data == old(self).nodes@[i].data,
    {
        let cloned_relation = relation.clone();
        self.link_to(from, to, cloned_relation);
        let ghost mid = *self;
        self.link_to(to, from, relation);
        proof {
            if from.index() != to.index() {
                assert(self.nodes@[from.index()].outgoing@.drop_last() =~= old(
                    self,
                ).nodes@[from.index()].outgoing@);
                assert(self.nodes@[to.index()].outgoing@.drop_last() =~= old(
                    self,
                ).nodes@[to.index()].outgoing@);
            } else {
                assert(self.nodes@[from.index()].outgoing@.drop_last() =~= mid.nodes@[from.index()].outgoing@);
                assert(self.nodes@[from.index()].outgoing@.drop_last().drop_last() =~= old(
                    self,
                ).nodes@[from.index()].outgoing@);
            }
        }
    }
}

/// Relates a node's outgoing-edge list before and after a `link_bidir` call:
/// one edge was appended, it leads to `target`, and its relation value is a
/// clone of (or equal to) `relation`.
pub open spec fn bidir_linked<R: Clone>(
    before: Seq<NodeRelation<R>>,
    after: Seq<NodeRelation<R>>,
    relation: R,
    target: NodeAddress,
) -> bool {
    &&& after.len() == before.len() + 1
    &&& after.drop_last() == before
    &&& bidir_last_matches(after, relation, target)
}

/// The last edge of `edges` leads to `target` carrying a clone of (or the
/// same value as) `relation`.
pub open spec fn bidir_last_matches<R: Clone>(
    edges: Seq<NodeRelation<R>>,
    relation: R,
    target: NodeAddress,
) -> bool {
    &&& edges.len() >= 1
    &&& edges.last().address == target
    &&& cloned::<R>(relation, edges.last().relation)
}

impl<T, R> Default for Graph<T, R> {
    /// The empty graph.
    fn default() -> (g: Self)
        ensures
            g.nodes@.len() == 0,
    {
        Graph { nodes: Vec::new() }
    }
}

} // verus!

//! A property graph type that embeds node relations into the node itself.

use vstd::prelude::*;
use crate::errors::NodeAddressError;
use crate::node_address::NodeAddress;
use crate::node_relation::NodeRelation;
use crate::path_queries::adjacency_wf;
use crate::{bidir_last_matches, bidir_linked};

verus! {

/// One node record of an [`EmbeddedPropertyGraph`]: the caller's payload
/// plus the ordered list of outgoing edges.
#[derive(Debug)]
pub struct EmbeddedNodeData<T, R> {
    /// The row index this node occupies in the owning graph's node table.
    pub id: usize,
    /// The caller-defined payload.
    pub data: T,
    /// Outgoing edges, kept in insertion order.
    pub outgoing: Vec<NodeRelation<R>>,
}

/// A property graph type that embeds node relations into the node itself.
///
/// Structurally equivalent to [`crate::PropertyGraph`], which keeps the
/// relations in a side table instead; both satisfy the same contracts.
#[derive(Debug)]
pub struct EmbeddedPropertyGraph<T, R> {
    /// The node table; a [`NodeAddress`] indexes into it.
    pub nodes: Vec<EmbeddedNodeData<T, R>>,
}

impl<T, R> EmbeddedPropertyGraph<T, R> {
    /// The adjacency view of this graph: for each node row, the sequence of
    /// its outgoing edges in insertion order.
    pub open spec fn adjacency(self) -> Seq<Seq<NodeRelation<R>>> {
        self.nodes@.map_values(|nd: EmbeddedNodeData<T, R>| nd.outgoing@)
    }

    /// Well-formedness: every edge leads to a valid row of this graph.
    pub open spec fn wf(self) -> bool {
        adjacency_wf(self.adjacency())
    }

    /// Appends a new node with the given payload and no outgoing edges,
    /// returning its address.
    pub fn add(&mut self, data: T) -> (address: NodeAddress)
        ensures
            address == NodeAddress::Local(old(self).nodes@.len() as usize),
            final(self).nodes@.len() == old(self).nodes@.len() + 1,
            forall|i: int|
                0 <= i < old(self).nodes@.len() ==> final(self).nodes@[i] == old(self).nodes@[i],
            final(self).nodes@.last().id == old(self).nodes@.len(),
            final(self).nodes@.last().data == data,
            final(self).nodes@.last().outgoing@ == Seq::<NodeRelation<R>>::empty(),
    {
        let id = self.nodes.len();
        let node = EmbeddedNodeData { id, data, outgoing: Vec::new() };
        self.nodes.push(node);
        NodeAddress::from_local(id)
    }

    /// Resolves a local address to its node record.
    pub fn get_local_node_ref(&self, address: &NodeAddress) -> (r: Result<
        &EmbeddedNodeData<T, R>,
        NodeAddressError,
    >)
        requires
            address.local_within(self.nodes@.len() as int),
        ensures
            r is Ok,
            *r->Ok_0 == self.nodes@[address.index()],
    {
        match address {
            NodeAddress::Local(id) => Ok(&self.nodes[*id]),
        }
    }

    /// Resolves a local address to its node's payload.
    pub fn get_local_node_data_ref(&self, address: &NodeAddress) -> (r: Result<
        &T,
        NodeAddressError,
    >)
        requires
            address.local_within(self.nodes@.len() as int),
        ensures
            r is Ok,
            *r->Ok_0 == self.nodes@[address.index()].data,
    {
        match address {
            NodeAddress::Local(id) => Ok(&self.nodes[*id].data),
        }
    }

    /// Resolves a local address to its node's payload.
    pub fn local_node_data_ref(&self, address: &NodeAddress) -> (r: Result<&T, NodeAddressError>)
        requires
            address.local_within(self.nodes@.len() as int),
        ensures
            r is Ok,
            *r->Ok_0 == self.nodes@[address.index()].data,
    {
        self.get_local_node_data_ref(address)
    }

    /// The outgoing edges of the node at a local address, in insertion
    /// order.  A fresh borrow is produced on every call.
    pub fn iter_local_neighbors(&self, address: &NodeAddress) -> (r: Result<
        &Vec<NodeRelation<R>>,
        NodeAddressError,
    >)
        requires
            address.local_within(self.nodes@.len() as int),
        ensures
            r is Ok,
            (*r->Ok_0)@ == self.adjacency()[address.index()],
    {
        match address {
            NodeAddress::Local(id) => Ok(&self.nodes[*id].outgoing),
        }
    }

    /// Appends a directed edge from the node at `from` to the node at `to`,
    /// labelled with `relation`.
    ///
    /// `to` is not checked: an edge to an address the graph cannot resolve is
    /// a programming error surfaced only when a solver later traverses it.
    pub fn link_to(&mut self, from: &NodeAddress, to: &NodeAddress, relation: R)
        requires
            from.local_within(old(self).nodes@.len() as int),
        ensures
            final(self).nodes@.len() == old(self).nodes@.len(),
            forall|i: int|
                0 <= i < old(self).nodes@.len() && i != from.index() ==> final(self).nodes@[i]
                    == old(self).nodes@[i],
            final(self).nodes@[from.index()].outgoing@ == old(self).nodes@[from.index()].outgoing@.push(
                (NodeRelation { relation, address: *to }),
            ),
            final(self).nodes@[from.index()].id == old(self).nodes@[from.index()].id,
            final(self).nodes@[from.index()].data == old(self).nodes@[from.index()].data,
    {
        match from {
            NodeAddress::Local(from_idx) => {
                let node = &mut self.nodes[*from_idx];
                node.outgoing.push(NodeRelation { relation, address: *to });
            },
        }
    }

    /// Appends a pair of directed edges between `from` and `to`, one in each
    /// direction, each carrying its own copy of `relation`.
    pub fn link_bidir(&mut self, from: &NodeAddress, to: &NodeAddress, relation: R) where
        R: Clone,

        requires
            from.local_within(old(self).nodes@.len() as int),
            to.local_within(old(self).nodes@.len() as int),
        ensures
            final(self).nodes@.len() == old(self).nodes@.len(),
            forall|i: int|
                0 <= i < old(self).nodes@.len() && i != from.index() && i != to.index() ==> final(self).nodes@[i] == old(self).nodes@[i],
            from.index() != to.index() ==> bidir_linked(
                old(self).nodes@[from.index()].outgoing@,
                final(self).nodes@[from.index()].outgoing@,
                relation,
                *to,
            ) && bidir_linked(
                old(self).nodes@[to.index()].outgoing@,
                final(self).nodes@[to.index()].outgoing@,
                relation,
                *from,
            ),
            from.index() == to.index() ==> final(self).nodes@[from.index()].outgoing@.len() == old(self).nodes@[from.index()].outgoing@.len() + 2 && bidir_linked(
                old(self).nodes@[from.index()].outgoing@,
                final(self).nodes@[from.index()].outgoing@.drop_last(),
                relation,
                *to,
            ) && bidir_last_matches(final(self).nodes@[from.index()].outgoing@, relation, *from),
            from.index() != to.index() ==> final(self).nodes@[to.index()].outgoing@.last().relation == relation,
            from.index() == to.index() ==> final(self).nodes@[from.index()].outgoing@.last().relation == relation,
            forall|i: int|
                0 <= i < old(self).nodes@.len() ==> final(self).nodes@[i].id == old(self).nodes@[i].id && final(self).nodes@[i].data == old(self).nodes@[i].data,
    {
        let cloned_relation = relation.clone();
        self.link_to(from, to, cloned_relation);
        let ghost mid = *self;
        self.link_to(to, from, relation);
        proof {
            if from.index() != to.index() {
                assert(self.nodes@[from.index()].outgoing@.drop_last() =~= old(
                    self,
                ).nodes@[from.index()].outgoing@);
                assert(self.nodes@[to.index()].outgoing@.drop_last() =~= old(
                    self,
                ).nodes@[to.index()].outgoing@);
            } else {
                assert(self.nodes@[from.index()].outgoing@.drop_last() =~= mid.nodes@[from.index()].outgoing@);
                assert(self.nodes@[from.index()].outgoing@.drop_last().drop_last() =~= old(
                    self,
                ).nodes@[from.index()].outgoing@);
            }
        }
    }
}

impl<T, R> Default for EmbeddedPropertyGraph<T, R> {
    /// The empty graph.
    fn default() -> (g: Self)
        ensures
            g.nodes@.len() == 0,
    {
        EmbeddedPropertyGraph { nodes: Vec::new() }
    }
}

} // verus!

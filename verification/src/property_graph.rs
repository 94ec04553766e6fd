//! A property graph type that keeps node relations in a side table.

use vstd::prelude::*;
use crate::errors::NodeAddressError;
use crate::node_address::NodeAddress;
use crate::node_relation::NodeRelation;
use crate::path_queries::adjacency_wf;
use crate::{bidir_last_matches, bidir_linked};

verus! {

/// One node record of a [`PropertyGraph`]: the caller's payload only; the
/// node's outgoing edges live in the graph's side table.
#[derive(Debug)]
pub struct PropertyNodeData<T> {
    /// The row index this node occupies in the owning graph's node table.
    pub id: usize,
    /// The caller-defined payload.
    pub data: T,
}

/// A property graph type keeping each node's outgoing edges in a side
/// table parallel to the node table.
///
/// Structurally equivalent to [`crate::EmbeddedPropertyGraph`], which embeds
/// the relations in the node records; both satisfy the same contracts.  One
/// row of `outgoing` exists for every row of `nodes`.
#[derive(Debug)]
pub struct PropertyGraph<T, R> {
    /// The node table; a [`NodeAddress`] indexes into it.
    pub nodes: Vec<PropertyNodeData<T>>,
    /// For each node row, its outgoing edges in insertion order.
    pub outgoing: Vec<Vec<NodeRelation<R>>>,
}

impl<T, R> PropertyGraph<T, R> {
    /// The two tables always have one row per node.
    pub open spec fn tables_aligned(self) -> bool {
        self.outgoing@.len() == self.nodes@.len()
    }

    /// The adjacency view of this graph: for each node row, the sequence of
    /// its outgoing edges in insertion order.
    pub open spec fn adjacency(self) -> Seq<Seq<NodeRelation<R>>> {
        self.outgoing@.map_values(|edges: Vec<NodeRelation<R>>| edges@)
    }

    /// Well-formedness: the tables are aligned and every edge leads to a
    /// valid row of this graph.
    pub open spec fn wf(self) -> bool {
        self.tables_aligned() && adjacency_wf(self.adjacency())
    }

    /// Appends a new node with the given payload and no outgoing edges,
    /// returning its address.
    pub fn add(&mut self, data: T) -> (address: NodeAddress)
        requires
            old(self).tables_aligned(),
        ensures
            final(self).tables_aligned(),
            address == NodeAddress::Local(old(self).nodes@.len() as usize),
            final(self).nodes@.len() == old(self).nodes@.len() + 1,
            forall|i: int|
                0 <= i < old(self).nodes@.len() ==> final(self).nodes@[i] == old(self).nodes@[i]
                    && final(self).outgoing@[i] == old(self).outgoing@[i],
            final(self).nodes@.last().id == old(self).nodes@.len(),
            final(self).nodes@.last().data == data,
            final(self).outgoing@.last()@ == Seq::<NodeRelation<R>>::empty(),
    {
        let id = self.nodes.len();
        let node = PropertyNodeData { id, data };
        self.nodes.push(node);
        self.outgoing.push(Vec::new());
        NodeAddress::from_local(id)
    }

    /// The outgoing edges of the node at a local address, in insertion
    /// order.  A fresh borrow is produced on every call.
    pub fn iter_local_neighbors(&self, address: &NodeAddress) -> (r: Result<
        &Vec<NodeRelation<R>>,
        NodeAddressError,
    >)
        requires
            self.tables_aligned(),
            address.local_within(self.nodes@.len() as int),
        ensures
            r is Ok,
            (*r->Ok_0)@ == self.adjacency()[address.index()],
    {
        match address {
            NodeAddress::Local(id) => Ok(&self.outgoing[*id]),
        }
    }

    /// Resolves a local address to its node's payload.
    pub fn local_node_data_ref(&self, address: &NodeAddress) -> (r: Result<&T, NodeAddressError>)
        requires
            address.local_within(self.nodes@.len() as int),
        ensures
            r is Ok,
            *r->Ok_0 == self.nodes@[address.index()].data,
    {
        match address {
            NodeAddress::Local(id) => Ok(&self.nodes[*id].data),
        }
    }

    /// Appends a directed edge from the node at `from` to the node at `to`,
    /// labelled with `relation`.
    ///
    /// `to` is not checked: an edge to an address the graph cannot resolve is
    /// a programming error surfaced only when a solver later traverses it.
    pub fn link_to(&mut self, from: &NodeAddress, to: &NodeAddress, relation: R)
        requires
            old(self).tables_aligned(),
            from.local_within(old(self).nodes@.len() as int),
        ensures
            final(self).tables_aligned(),
            final(self).nodes@ == old(self).nodes@,
            final(self).outgoing@.len() == old(self).outgoing@.len(),
            forall|i: int|
                0 <= i < old(self).outgoing@.len() && i != from.index() ==> final(self).outgoing@[i] == old(self).outgoing@[i],
            final(self).outgoing@[from.index()]@ == old(self).outgoing@[from.index()]@.push(
                (NodeRelation { relation, address: *to }),
            ),
    {
        match from {
            NodeAddress::Local(from_idx) => {
                let entry = &mut self.outgoing[*from_idx];
                entry.push(NodeRelation { relation, address: *to });
            },
        }
    }

    /// Appends a pair of directed edges between `from` and `to`, one in each
    /// direction, each carrying its own copy of `relation`.
    pub fn link_bidir(&mut self, from: &NodeAddress, to: &NodeAddress, relation: R) where
        R: Clone,

        requires
            old(self).tables_aligned(),
            from.local_within(old(self).nodes@.len() as int),
            to.local_within(old(self).nodes@.len() as int),
        ensures
            final(self).tables_aligned(),
            final(self).nodes@ == old(self).nodes@,
            final(self).outgoing@.len() == old(self).outgoing@.len(),
            forall|i: int|
                0 <= i < old(self).outgoing@.len() && i != from.index() && i != to.index()
                    ==> final(self).outgoing@[i] == old(self).outgoing@[i],
            from.index() != to.index() ==> bidir_linked(
                old(self).outgoing@[from.index()]@,
                final(self).outgoing@[from.index()]@,
                relation,
                *to,
            ) && bidir_linked(
                old(self).outgoing@[to.index()]@,
                final(self).outgoing@[to.index()]@,
                relation,
                *from,
            ),
            from.index() == to.index() ==> final(self).outgoing@[from.index()]@.len() == old(self).outgoing@[from.index()]@.len() + 2 && bidir_linked(
                old(self).outgoing@[from.index()]@,
                final(self).outgoing@[from.index()]@.drop_last(),
                relation,
                *to,
            ) && bidir_last_matches(final(self).outgoing@[from.index()]@, relation, *from),
            from.index() != to.index() ==> final(self).outgoing@[to.index()]@.last().relation == relation,
            from.index() == to.index() ==> final(self).outgoing@[from.index()]@.last().relation == relation,
    {
        let cloned_relation = relation.clone();
        self.link_to(from, to, cloned_relation);
        let ghost mid = *self;
        self.link_to(to, from, relation);
        proof {
            if from.index() != to.index() {
                assert(self.outgoing@[from.index()]@.drop_last() =~= old(
                    self,
                ).outgoing@[from.index()]@);
                assert(self.outgoing@[to.index()]@.drop_last() =~= old(
                    self,
                ).outgoing@[to.index()]@);
            } else {
                assert(self.outgoing@[from.index()]@.drop_last() =~= mid.outgoing@[from.index()]@);
                assert(self.outgoing@[from.index()]@.drop_last().drop_last() =~= old(
                    self,
                ).outgoing@[from.index()]@);
            }
        }
    }
}

impl<T, R> Default for PropertyGraph<T, R> {
    /// The empty graph.
    fn default() -> (g: Self)
        ensures
            g.nodes@.len() == 0,
            g.outgoing@.len() == 0,
            g.tables_aligned(),
    {
        PropertyGraph { nodes: Vec::new(), outgoing: Vec::new() }
    }
}

} // verus!

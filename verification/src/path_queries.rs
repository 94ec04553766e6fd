//! Graph traversal and path queries.
//!
//! This module holds the two caller-supplied capability traits used by A*
//! and the specification vocabulary shared by all solvers: what a valid
//! path is, what reachability means, and the predecessor-trace structure
//! from which every solver reconstructs its answer.

use vstd::prelude::*;
use crate::node_address::NodeAddress;
use crate::node_relation::{NodePathLink, NodeRelation};

pub mod astar;
pub mod bfs;
pub mod dfs;

verus! {

/// The cost value treated as "no passable edge" by A*.
///
/// A [`PathCost`] implementation returns this for edges that must not be
/// traversed; a step over such an edge can never improve a node's known
/// cost, so the edge is never taken.
pub const IMPASSABLE: u64 = u64::MAX;

/// Trait for heuristics.
///
/// `heuristic` estimates the remaining cost from `from` to `to`.  For A* to
/// find cheapest paths the estimate must be admissible, i.e. never exceed
/// the true remaining cost; this is a contract on the caller, not something
/// the solver verifies.
pub trait AdmissibleHeuristic<N> {
    /// Estimated cost still to pay to travel from `from` to `to`.
    fn heuristic(&self, from: &N, to: &N) -> u64;
}

/// Trait for path costs.
///
/// `path_cost` gives the true incremental cost of traversing one edge,
/// given the two endpoint payloads and the edge's relation value.  Edges
/// that must be treated as impassable cost [`IMPASSABLE`].
pub trait PathCost<N, R> {
    /// The cost of moving from `from` to `to` along an edge labelled
    /// `relation`.
    fn path_cost(&self, from: &N, to: &N, relation: &R) -> u64;
}

/// Every edge of the adjacency view leads to a valid row.
pub open spec fn adjacency_wf<R>(adj: Seq<Seq<NodeRelation<R>>>) -> bool {
    forall|u: int, k: int|
        0 <= u < adj.len() && 0 <= k < adj[u].len() ==> (#[trigger] adj[u][k]).address.local_within(
            adj.len() as int,
        )
}

/// There is an edge from row `u` to row `v`.
pub open spec fn has_edge<R>(adj: Seq<Seq<NodeRelation<R>>>, u: int, v: int) -> bool {
    &&& 0 <= u < adj.len()
    &&& exists|k: int| 0 <= k < adj[u].len() && (#[trigger] adj[u][k]).address.index() == v
}

/// `link` describes a traversal of one of row `u`'s outgoing edges: its
/// address is that edge's target and its relation is a clone of that edge's
/// relation value.
pub open spec fn links_edge<R: Clone>(
    adj: Seq<Seq<NodeRelation<R>>>,
    u: int,
    link: NodePathLink<R>,
) -> bool {
    exists|k: int|
        {
            &&& 0 <= k < adj[u].len()
            &&& (#[trigger] adj[u][k]).address == link.address
            &&& link.relation is Some
            &&& cloned::<R>(adj[u][k].relation, link.relation->Some_0)
        }
}

/// `p` is a valid solver answer for a query from row `s` to row `t`: it
/// starts at `s` with no relation, ends at `t`, and each later element
/// traverses an existing edge out of its predecessor.
pub open spec fn path_ok<R: Clone>(
    adj: Seq<Seq<NodeRelation<R>>>,
    p: Seq<NodePathLink<R>>,
    s: int,
    t: int,
) -> bool {
    &&& p.len() >= 1
    &&& p[0].address.index() == s
    &&& p[0].relation is None
    &&& p.last().address.index() == t
    &&& forall|i: int| 0 <= i < p.len() ==> (#[trigger] p[i]).address.local_within(adj.len() as int)
    &&& forall|i: int| 1 <= i < p.len() ==> links_edge(adj, p[i - 1].address.index(), #[trigger] p[i])
}

/// `p` is the answer spelled out by the recorded trace steps: one element
/// per step, each at the step's node, the first bare, and every later one
/// traversing exactly the edge its step records — its address is that
/// edge's target and its relation a clone of that edge's relation value.
pub open spec fn follows_steps<R: Clone>(
    adj: Seq<Seq<NodeRelation<R>>>,
    steps: Seq<TraceStep>,
    p: Seq<NodePathLink<R>>,
) -> bool {
    &&& p.len() == steps.len()
    &&& forall|m: int|
        0 <= m < p.len() ==> (#[trigger] p[m]).address.index() == steps[m].node as int
    &&& (p.len() > 0 ==> p[0].relation is None)
    &&& forall|m: int|
        1 <= m < p.len() ==> {
            let u = steps[m - 1].node as int;
            let e = steps[m].edge as int;
            &&& 0 <= e < adj[u].len()
            &&& (#[trigger] p[m]).address == adj[u][e].address
            &&& p[m].relation is Some
            &&& cloned::<R>(adj[u][e].relation, p[m].relation->Some_0)
        }
}

/// A sequence of row indices forming an edge walk from `s` to `t`.
pub open spec fn index_path_ok<R>(
    adj: Seq<Seq<NodeRelation<R>>>,
    q: Seq<int>,
    s: int,
    t: int,
) -> bool {
    &&& q.len() >= 1
    &&& q[0] == s
    &&& q.last() == t
    &&& forall|i: int| 1 <= i < q.len() ==> has_edge(adj, q[i - 1], #[trigger] q[i])
}

/// Row `t` can be reached from row `s` by following edges.
pub open spec fn reachable<R>(adj: Seq<Seq<NodeRelation<R>>>, s: int, t: int) -> bool {
    exists|q: Seq<int>| index_path_ok(adj, q, s, t)
}

/// Row `v` can be reached from row `s` in at most `k` edges.
pub open spec fn reach_within<R>(adj: Seq<Seq<NodeRelation<R>>>, s: int, v: int, k: nat) -> bool
    decreases k,
{
    if v == s {
        true
    } else if k == 0 {
        false
    } else {
        exists|u: int| reach_within(adj, s, u, (k - 1) as nat) && #[trigger] has_edge(adj, u, v)
    }
}

/// A valid path witnesses reachability.
pub proof fn lemma_path_ok_reachable<R: Clone>(
    adj: Seq<Seq<NodeRelation<R>>>,
    p: Seq<NodePathLink<R>>,
    s: int,
    t: int,
)
    requires
        path_ok(adj, p, s, t),
    ensures
        index_path_ok(adj, p.map_values(|l: NodePathLink<R>| l.address.index()), s, t),
        reachable(adj, s, t),
{
    let q = p.map_values(|l: NodePathLink<R>| l.address.index());
    assert forall|i: int| 1 <= i < q.len() implies has_edge(adj, q[i - 1], #[trigger] q[i]) by {
        assert(links_edge(adj, p[i - 1].address.index(), p[i]));
        let k = choose|k: int|
            {
                &&& 0 <= k < adj[p[i - 1].address.index()].len()
                &&& (#[trigger] adj[p[i - 1].address.index()][k]).address == p[i].address
                &&& p[i].relation is Some
                &&& cloned::<R>(adj[p[i - 1].address.index()][k].relation, p[i].relation->Some_0)
            };
        assert(adj[q[i - 1]][k].address.index() == q[i]);
    }
    assert(q.last() == t);
}

/// A walk of any length witnesses bounded reachability.
pub proof fn lemma_index_path_reach_within<R>(
    adj: Seq<Seq<NodeRelation<R>>>,
    q: Seq<int>,
    s: int,
    t: int,
)
    requires
        index_path_ok(adj, q, s, t),
    ensures
        reach_within(adj, s, t, (q.len() - 1) as nat),
    decreases q.len(),
{
    if q.len() == 1 {
    } else {
        let q0 = q.drop_last();
        assert(index_path_ok(adj, q0, s, q[q.len() - 2]));
        lemma_index_path_reach_within(adj, q0, s, q[q.len() - 2]);
        if t == s {
        } else {
            assert(has_edge(adj, q[q.len() - 2], t));
            assert(reach_within(adj, s, q[q.len() - 2], (q.len() - 2) as nat));
        }
    }
}

/// Nodes marked in a set that contains `s`, excludes `t`, and is closed
/// under edges separate `t` from `s`: no walk can exist.
pub proof fn lemma_closed_unreachable<R>(
    adj: Seq<Seq<NodeRelation<R>>>,
    mark: Seq<bool>,
    s: int,
    t: int,
)
    requires
        mark.len() == adj.len(),
        0 <= s < adj.len(),
        mark[s],
        0 <= t < mark.len() ==> !mark[t],
        s != t,
        forall|u: int, v: int|
            0 <= u < adj.len() && mark[u] && #[trigger] has_edge(adj, u, v) ==> 0 <= v < adj.len()
                && mark[v],
    ensures
        !reachable(adj, s, t),
{
    assert forall|q: Seq<int>| !index_path_ok(adj, q, s, t) by {
        if index_path_ok(adj, q, s, t) {
            lemma_closed_path_marked(adj, mark, q, s, t);
        }
    }
}

/// One entry of a solver's predecessor trace.
///
/// Solvers record every discovery as an appended trace entry: the node
/// discovered, the index of the trace entry it was discovered from, and
/// which outgoing edge of that predecessor's node was traversed.  The entry
/// with no parent is the start node.  Because a parent always precedes its
/// children in the trace, following parents terminates, and the chain from
/// any entry back to the start spells out a valid path.
#[derive(Debug, Clone, Copy)]
pub struct TraceStep {
    /// The row index of the node this entry discovered.
    pub node: usize,
    /// The trace entry this node was discovered from, absent for the start.
    pub parent: Option<usize>,
    /// Which outgoing edge of the parent's node was traversed; meaningless
    /// when `parent` is absent.
    pub edge: usize,
}

/// Entry `j` of the trace is well formed: its node is a valid row, and it
/// either is the start node or was discovered over an existing edge out of
/// an earlier entry's node.
pub open spec fn trace_step_ok<R>(
    adj: Seq<Seq<NodeRelation<R>>>,
    tr: Seq<TraceStep>,
    s: int,
    j: int,
) -> bool {
    &&& (tr[j].node as int) < adj.len()
    &&& match tr[j].parent {
        Option::None => tr[j].node as int == s,
        Option::Some(p) => {
            &&& (p as int) < j
            &&& (tr[j].edge as int) < adj[tr[p as int].node as int].len()
            &&& adj[tr[p as int].node as int][tr[j].edge as int].address.index() == tr[j].node as int
        },
    }
}

/// Every entry of the trace is well formed for a search started at row `s`.
pub open spec fn trace_wf<R>(adj: Seq<Seq<NodeRelation<R>>>, tr: Seq<TraceStep>, s: int) -> bool {
    forall|j: int| 0 <= j < tr.len() ==> #[trigger] trace_step_ok(adj, tr, s, j)
}

/// The chain of trace indices leading from the start entry to entry `j`,
/// both inclusive.
pub open spec fn trace_chain(tr: Seq<TraceStep>, j: int) -> Seq<int>
    decreases j,
{
    if 0 <= j < tr.len() {
        match tr[j].parent {
            Option::None => seq![j],
            Option::Some(p) => if (p as int) < j {
                trace_chain(tr, p as int).push(j)
            } else {
                seq![j]
            },
        }
    } else {
        seq![j]
    }
}

/// The number of nodes on the chain from the start entry to entry `j`.
pub open spec fn trace_depth(tr: Seq<TraceStep>, j: int) -> nat {
    trace_chain(tr, j).len()
}

/// Appending entries to a trace does not change the chains of the entries
/// already present.
pub proof fn lemma_trace_chain_push(tr: Seq<TraceStep>, st: TraceStep, j: int)
    requires
        0 <= j < tr.len(),
    ensures
        trace_chain(tr.push(st), j) == trace_chain(tr, j),
    decreases j,
{
    match tr[j].parent {
        Option::None => {},
        Option::Some(p) => {
            if (p as int) < j {
                lemma_trace_chain_push(tr, st, p as int);
            }
        },
    }
}

/// Shape of the chain of a well-formed trace entry: it runs from the start
/// entry to `j`, each link names a valid entry, the first entry is the
/// start node, and each later entry was discovered from the one before it.
pub proof fn lemma_trace_chain_props<R>(
    adj: Seq<Seq<NodeRelation<R>>>,
    tr: Seq<TraceStep>,
    s: int,
    j: int,
)
    requires
        trace_wf(adj, tr, s),
        0 <= j < tr.len(),
    ensures
        trace_chain(tr, j).len() >= 1,
        trace_chain(tr, j).last() == j,
        forall|m: int| 0 <= m < trace_chain(tr, j).len() ==> 0 <= #[trigger] trace_chain(tr, j)[m]
            <= j,
        tr[trace_chain(tr, j)[0]].parent is None,
        tr[trace_chain(tr, j)[0]].node as int == s,
        forall|m: int|
            1 <= m < trace_chain(tr, j).len() ==> tr[#[trigger] trace_chain(tr, j)[m]].parent
                == Option::Some(trace_chain(tr, j)[m - 1] as usize),
    decreases j,
{
    assert(trace_step_ok(adj, tr, s, j));
    match tr[j].parent {
        Option::None => {},
        Option::Some(p) => {
            lemma_trace_chain_props(adj, tr, s, p as int);
            let c0 = trace_chain(tr, p as int);
            let c = trace_chain(tr, j);
            assert(c == c0.push(j));
            assert(c[0] == c0[0]);
            assert(c[c.len() - 2] == c0.last());
            assert(p as int <= j);
            assert forall|m: int| 1 <= m < c.len() implies tr[#[trigger] c[m]].parent
                == Option::Some(c[m - 1] as usize) by {
                if m < c.len() - 1 {
                    assert(c[m] == c0[m]);
                    assert(c[m - 1] == c0[m - 1]);
                } else {
                    assert(c[m] == j);
                    assert(c[m - 1] == c0.last());
                    assert(c0.last() == p as int);
                    assert(p as usize == p);
                }
            }
        },
    }
}

/// The number of still-unvisited rows in a visited table.
pub open spec fn count_unvisited(s: Seq<bool>) -> nat
    decreases s.len(),
{
    if s.len() == 0 {
        0
    } else {
        count_unvisited(s.drop_last()) + if s.last() {
            0nat
        } else {
            1nat
        }
    }
}

/// Marking one unvisited row visited lowers the count by exactly one.
pub proof fn lemma_count_unvisited_update(s: Seq<bool>, i: int)
    requires
        0 <= i < s.len(),
        !s[i],
    ensures
        count_unvisited(s.update(i, true)) + 1 == count_unvisited(s),
    decreases s.len(),
{
    let s2 = s.update(i, true);
    if i == s.len() - 1 {
        assert(s2.drop_last() =~= s.drop_last());
        assert(s2.last());
    } else {
        assert(s2.drop_last() =~= s.drop_last().update(i, true));
        assert(s2.last() == s.last());
        lemma_count_unvisited_update(s.drop_last(), i);
    }
}

/// Rebuilds the path described by the chain of trace entry `tip`.
///
/// The result runs from the start node to `tip`'s node; each step after the
/// first carries a clone of the relation value of the edge recorded in the
/// trace.
#[verifier::rlimit(60)]
pub(crate) fn reconstruct_path<T, R: Clone>(
    graph: &crate::embedded_property_graph::EmbeddedPropertyGraph<T, R>,
    trace: &Vec<TraceStep>,
    tip: usize,
    Ghost(s): Ghost<int>,
) -> (r: Vec<NodePathLink<R>>)
    requires
        trace_wf(graph.adjacency(), trace@, s),
        (tip as int) < trace@.len(),
    ensures
        path_ok(graph.adjacency(), r@, s, trace@[tip as int].node as int),
        r@.len() == trace_chain(trace@, tip as int).len(),
        follows_steps(
            graph.adjacency(),
            trace_chain(trace@, tip as int).map_values(|i: int| trace@[i]),
            r@,
        ),
{
    let ghost adj = graph.adjacency();
    let ghost chain = trace_chain(trace@, tip as int);
    proof {
        lemma_trace_chain_props(adj, trace@, s, tip as int);
    }
    let mut rev: Vec<usize> = Vec::new();
    let mut cur: usize = tip;
    rev.push(cur);
    while trace[cur].parent.is_some()
        invariant
            trace_wf(adj, trace@, s),
            adj == graph.adjacency(),
            (tip as int) < trace@.len(),
            chain == trace_chain(trace@, tip as int),
            (cur as int) < trace@.len(),
            1 <= rev@.len() <= chain.len(),
            forall|m: int| 0 <= m < rev@.len() ==> rev@[m] as int == chain[chain.len() - 1 - m],
            rev@.last() == cur,
            trace_chain(trace@, cur as int) == chain.subrange(0, chain.len() - rev@.len() + 1),
        decreases cur,
    {
        let st = trace[cur];
        let p = match st.parent {
            Option::Some(p) => p,
            Option::None => 0,
        };
        proof {
            assert(trace_step_ok(adj, trace@, s, cur as int));
            let c0 = trace_chain(trace@, p as int);
            assert(trace_chain(trace@, cur as int) == c0.push(cur as int));
            lemma_trace_chain_props(adj, trace@, s, p as int);
            assert(c0.last() == p as int);
            assert(c0 =~= chain.subrange(0, chain.len() - rev@.len()));
            assert(chain[chain.len() - rev@.len() - 1] == c0.last());
        }
        cur = p;
        rev.push(cur);
    }
    proof {
        assert(trace_chain(trace@, cur as int) == seq![cur as int]);
        assert(chain.len() - rev@.len() + 1 == 1);
        assert(rev@.len() == chain.len());
    }
    let total = rev.len();
    let trace_total = trace.len();
    let mut out: Vec<NodePathLink<R>> = Vec::new();
    let mut m: usize = 0;
    while m < total
        invariant
            trace_wf(adj, trace@, s),
            adj == graph.adjacency(),
            (tip as int) < trace@.len(),
            trace@.len() == trace_total as int,
            chain == trace_chain(trace@, tip as int),
            chain.len() >= 1,
            chain.last() == tip as int,
            forall|i: int| 0 <= i < chain.len() ==> 0 <= #[trigger] chain[i] < trace@.len(),
            trace@[chain[0]].parent is None,
            trace@[chain[0]].node as int == s,
            forall|i: int|
                1 <= i < chain.len() ==> trace@[#[trigger] chain[i]].parent == Option::Some(
                    chain[i - 1] as usize,
                ),
            total == rev@.len(),
            rev@.len() == chain.len(),
            forall|i: int| 0 <= i < rev@.len() ==> rev@[i] as int == chain[chain.len() - 1 - i],
            m <= total,
            out@.len() == m,
            forall|i: int|
                0 <= i < m ==> (#[trigger] out@[i]).address.index() == trace@[chain[i]].node as int,
            forall|i: int|
                0 <= i < m ==> (#[trigger] out@[i]).address.local_within(adj.len() as int),
            m > 0 ==> out@[0].relation is None,
            forall|i: int| 1 <= i < m ==> links_edge(adj, out@[i - 1].address.index(), #[trigger] out@[i]),
            forall|i: int|
                1 <= i < m ==> {
                    let u = trace@[chain[i - 1]].node as int;
                    let e = trace@[chain[i]].edge as int;
                    &&& 0 <= e < adj[u].len()
                    &&& (#[trigger] out@[i]).address == adj[u][e].address
                    &&& out@[i].relation is Some
                    &&& cloned::<R>(adj[u][e].relation, out@[i].relation->Some_0)
                },
        decreases total - m,
    {
        let idx = rev[total - 1 - m];
        let st = trace[idx];
        proof {
            assert(rev@[total - 1 - m] as int == chain[m as int]);
            assert(trace_step_ok(adj, trace@, s, idx as int));
        }
        match st.parent {
            Option::None => {
                proof {
                    if m > 0 {
                        assert(trace@[chain[m as int]].parent == Option::Some(
                            chain[m as int - 1] as usize,
                        ));
                        assert(false);
                    }
                }
                out.push(NodePathLink { relation: None, address: NodeAddress::Local(st.node) });
            },
            Option::Some(p) => {
                proof {
                    if m == 0 {
                        assert(trace@[chain[0]].parent is None);
                        assert(false);
                    }
                    assert(trace@[chain[m as int]].parent == Option::Some(
                        chain[m as int - 1] as usize,
                    ));
                    assert(p == chain[m as int - 1] as usize);
                    assert(0 <= chain[m as int - 1] < trace@.len());
                    assert(p as int == chain[m as int - 1]);
                    assert(trace_step_ok(adj, trace@, s, p as int));
                }
                let pnode = trace[p].node;
                let edge = &graph.nodes[pnode].outgoing[st.edge];
                let link = NodePathLink {
                    relation: Some(edge.relation.clone()),
                    address: edge.address,
                };
                proof {
                    assert(adj[pnode as int] == graph.nodes@[pnode as int].outgoing@);
                    assert(adj[pnode as int][st.edge as int].address.index() == st.node as int);
                    assert(out@[m as int - 1].address.index() == trace@[chain[m as int - 1]].node as int);
                }
                out.push(link);
                proof {
                    assert(links_edge(adj, pnode as int, out@.last()));
                    assert(pnode == trace@[chain[m as int - 1]].node);
                    assert(st.edge == trace@[chain[m as int]].edge);
                    assert(out@[m as int].address == adj[pnode as int][st.edge as int].address);
                    assert(cloned::<R>(
                        adj[pnode as int][st.edge as int].relation,
                        out@[m as int].relation->Some_0,
                    ));
                }
            },
        }
        m += 1;
    }
    proof {
        assert(out@.last().address.index() == trace@[chain[chain.len() - 1]].node as int);
        let steps = chain.map_values(|i: int| trace@[i]);
        assert(steps.len() == chain.len());
        assert forall|i: int| 0 <= i < out@.len() implies (#[trigger] out@[i]).address.index()
            == steps[i].node as int by {
            assert(out@[i].address.index() == trace@[chain[i]].node as int);
        }
        assert forall|i: int|
            1 <= i < out@.len() implies {
            let u = steps[i - 1].node as int;
            let e = steps[i].edge as int;
            &&& 0 <= e < adj[u].len()
            &&& (#[trigger] out@[i]).address == adj[u][e].address
            &&& out@[i].relation is Some
            &&& cloned::<R>(adj[u][e].relation, out@[i].relation->Some_0)
        } by {
            assert(steps[i - 1] == trace@[chain[i - 1]]);
            assert(steps[i] == trace@[chain[i]]);
        }
        assert(follows_steps(adj, steps, out@));
    }
    out
}

/// Every endpoint of a walk out of a closed marked set is itself marked.
proof fn lemma_closed_path_marked<R>(
    adj: Seq<Seq<NodeRelation<R>>>,
    mark: Seq<bool>,
    q: Seq<int>,
    s: int,
    t: int,
)
    requires
        mark.len() == adj.len(),
        0 <= s < adj.len(),
        mark[s],
        forall|u: int, v: int|
            0 <= u < adj.len() && mark[u] && #[trigger] has_edge(adj, u, v) ==> 0 <= v < adj.len()
                && mark[v],
        index_path_ok(adj, q, s, t),
    ensures
        0 <= t < mark.len() && mark[t],
    decreases q.len(),
{
    if q.len() == 1 {
    } else {
        let q0 = q.drop_last();
        assert(index_path_ok(adj, q0, s, q[q.len() - 2]));
        lemma_closed_path_marked(adj, mark, q0, s, q[q.len() - 2]);
        assert(has_edge(adj, q[q.len() - 2], t));
    }
}

} // verus!

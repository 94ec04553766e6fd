//! A depth-first search solver.

use vstd::prelude::*;
use crate::node_address::NodeAddress;
use crate::node_relation::{NodePathLink, NodeRelation};
use crate::path_queries::{
    adjacency_wf, count_unvisited, follows_steps, lemma_closed_unreachable,
    lemma_count_unvisited_update, lemma_path_ok_reachable, lemma_trace_chain_props, links_edge,
    path_ok, reachable, trace_chain, trace_step_ok, trace_wf, TraceStep,
};
use crate::Graph;

verus! {

/// The node at row `v` has been visited, or some trace entry still on the
/// stack will deliver it.
pub open spec fn stacked_or_visited(
    tr: Seq<TraceStep>,
    stack: Seq<usize>,
    vis: Seq<bool>,
    v: int,
) -> bool {
    ||| (0 <= v < vis.len() && vis[v])
    ||| exists|m: int| 0 <= m < stack.len() && tr[#[trigger] stack[m] as int].node as int == v
}

/// A depth-first state is fit to run: the visited table has one slot per
/// node row, every trace entry names a valid row, every stacked index
/// names a trace entry, and the trace fits in memory.
pub open spec fn dfs_state_ok<R>(
    adj: Seq<Seq<NodeRelation<R>>>,
    tr: Seq<TraceStep>,
    vis: Seq<bool>,
    stack: Seq<usize>,
) -> bool {
    &&& adjacency_wf(adj)
    &&& vis.len() == adj.len()
    &&& tr.len() <= usize::MAX as int
    &&& forall|j: int| 0 <= j < tr.len() ==> ((#[trigger] tr[j]).node as int) < adj.len()
    &&& forall|m: int| 0 <= m < stack.len() ==> ((#[trigger] stack[m]) as int) < tr.len()
}

/// The trace entries a depth-first visit of entry `idx`'s node appends:
/// one per outgoing edge, in edge order.
pub open spec fn dfs_children<R>(
    adj: Seq<Seq<NodeRelation<R>>>,
    tr: Seq<TraceStep>,
    idx: int,
) -> Seq<TraceStep> {
    Seq::new(
        adj[tr[idx].node as int].len(),
        |k: int|
            TraceStep {
                node: adj[tr[idx].node as int][k].address.index() as usize,
                parent: Some(idx as usize),
                edge: k as usize,
            },
    )
}

/// The whole depth-first run, as a function: from the given trace, visited
/// table and stack, the trace steps of the answer path (the node reached
/// and the edge traversed, per element), or `None` when the stack empties
/// without delivering `t`.
pub open spec fn dfs_search<R>(
    adj: Seq<Seq<NodeRelation<R>>>,
    tr: Seq<TraceStep>,
    vis: Seq<bool>,
    stack: Seq<usize>,
    t: int,
) -> Option<Seq<TraceStep>>
    decreases count_unvisited(vis), stack.len(),
        when dfs_state_ok(adj, tr, vis, stack)
        via dfs_search_decreases::<R>
{
    if stack.len() == 0 {
        None
    } else if tr[stack.last() as int].node as int == t {
        Some(trace_chain(tr, stack.last() as int).map_values(|i: int| tr[i]))
    } else if vis[tr[stack.last() as int].node as int] {
        dfs_search(adj, tr, vis, stack.drop_last(), t)
    } else {
        dfs_search(
            adj,
            tr + dfs_children(adj, tr, stack.last() as int),
            vis.update(tr[stack.last() as int].node as int, true),
            stack.drop_last() + Seq::new(
                adj[tr[stack.last() as int].node as int].len(),
                |k: int| (tr.len() + k) as usize,
            ),
            t,
        )
    }
}

#[via_fn]
proof fn dfs_search_decreases<R>(
    adj: Seq<Seq<NodeRelation<R>>>,
    tr: Seq<TraceStep>,
    vis: Seq<bool>,
    stack: Seq<usize>,
    t: int,
) {
    if stack.len() > 0 && tr[stack.last() as int].node as int != t && !vis[tr[stack.last()
        as int].node as int] {
        lemma_count_unvisited_update(vis, tr[stack.last() as int].node as int);
    }
}

/// The steps of the answer the depth-first solver gives for a query from
/// row `s` to row `t` — the node reached and the edge traversed, per
/// element — or the empty sequence when `t` is unreachable.
pub open spec fn dfs_outcome<R>(adj: Seq<Seq<NodeRelation<R>>>, s: int, t: int) -> Seq<TraceStep> {
    match dfs_search(
        adj,
        seq![TraceStep { node: s as usize, parent: None, edge: 0usize }],
        Seq::new(adj.len(), |i: int| false),
        seq![0usize],
        t,
    ) {
        Some(q) => q,
        None => Seq::empty(),
    }
}

/// Running the depth-first solver twice on an unmodified graph with the
/// same start and target yields paths over exactly the same node
/// addresses, each step of both runs carrying a clone of the same recorded
/// edge's relation value: the answer is a function of the query alone.
pub proof fn lemma_dfs_deterministic<R: Clone>(
    adj: Seq<Seq<NodeRelation<R>>>,
    first: Seq<NodePathLink<R>>,
    second: Seq<NodePathLink<R>>,
    s: int,
    t: int,
)
    requires
        follows_steps(adj, dfs_outcome(adj, s, t), first),
        follows_steps(adj, dfs_outcome(adj, s, t), second),
    ensures
        first.len() == second.len(),
        forall|i: int| 0 <= i < first.len() ==> (#[trigger] first[i]).address == second[i].address,
        forall|i: int|
            1 <= i < first.len() ==> ({
                let steps = dfs_outcome(adj, s, t);
                let rel = adj[steps[i - 1].node as int][steps[i].edge as int].relation;
                &&& (#[trigger] first[i]).relation is Some
                &&& second[i].relation is Some
                &&& cloned::<R>(rel, first[i].relation->Some_0)
                &&& cloned::<R>(rel, second[i].relation->Some_0)
            }),
{
    let steps = dfs_outcome(adj, s, t);
    assert forall|i: int| 0 <= i < first.len() implies (#[trigger] first[i]).address
        == second[i].address by {
        if i == 0 {
            assert(first[i].address.index() == steps[i].node as int);
            assert(second[i].address.index() == steps[i].node as int);
        } else {
            assert(first[i].address == adj[steps[i - 1].node as int][steps[i].edge
                as int].address);
            assert(second[i].address == adj[steps[i - 1].node as int][steps[i].edge
                as int].address);
        }
    }
}

/// A depth-first search (DFS) solver for finding a path in a graph.
#[derive(Debug)]
pub struct DepthFirstSearch;

impl DepthFirstSearch {
    /// Performs a depth-first search to find a path between nodes in the
    /// graph.
    ///
    /// Returns a path from `start` to `target`, or an empty vector exactly
    /// when no such path exists.  The path found is the first one in
    /// depth-first order and is not claimed to be shortest by any measure.
    /// When `start == target` the result is the single-element path holding
    /// the start node and no relation.
    #[verifier::rlimit(100)]
    pub fn find_path<N, R: Clone>(
        &self,
        graph: &Graph<N, R>,
        start: NodeAddress,
        target: NodeAddress,
    ) -> (r: Vec<NodePathLink<R>>)
        requires
            graph.wf(),
            start.local_within(graph.nodes@.len() as int),
            target.local_within(graph.nodes@.len() as int),
        ensures
            r@.len() > 0 ==> path_ok(graph.adjacency(), r@, start.index(), target.index()),
            r@.len() > 0 <==> reachable(graph.adjacency(), start.index(), target.index()),
            start == target ==> r@.len() == 1,
            follows_steps(
                graph.adjacency(),
                dfs_outcome(graph.adjacency(), start.index(), target.index()),
                r@,
            ),
    {
        let ghost adj = graph.adjacency();
        let n = graph.nodes.len();
        let s = match start {
            NodeAddress::Local(i) => i,
        };
        let t = match target {
            NodeAddress::Local(i) => i,
        };
        let mut visited: Vec<bool> = Vec::new();
        let mut vi: usize = 0;
        while vi < n
            invariant
                vi <= n,
                visited@.len() == vi as int,
                forall|i: int| 0 <= i < vi as int ==> !visited@[i],
            decreases n - vi,
        {
            visited.push(false);
            vi += 1;
        }
        let mut trace: Vec<TraceStep> = Vec::new();
        trace.push(TraceStep { node: s, parent: None, edge: 0 });
        let mut stack: Vec<usize> = Vec::new();
        stack.push(0);
        let ghost goal = dfs_search(adj, trace@, visited@, stack@, t as int);
        proof {
            assert(trace@[stack@[0] as int].node == s);
            assert(visited@ =~= Seq::new(adj.len(), |i: int| false));
            assert(trace@ =~= seq![TraceStep { node: s, parent: None, edge: 0usize }]);
            assert(stack@ =~= seq![0usize]);
            assert(dfs_outcome(adj, s as int, t as int) == (match goal {
                Some(q) => q,
                None => Seq::<TraceStep>::empty(),
            }));
        }
        while stack.len() > 0
            invariant
                adj == graph.adjacency(),
                adjacency_wf(adj),
                n as int == adj.len(),
                s as int == start.index(),
                t as int == target.index(),
                (s as int) < adj.len(),
                (t as int) < adj.len(),
                visited@.len() == n as int,
                trace@.len() >= 1,
                trace_wf(adj, trace@, s as int),
                forall|m: int| 0 <= m < stack@.len() ==> (#[trigger] stack@[m] as int) < trace@.len(),
                !visited@[t as int],
                visited@[s as int] || exists|m: int|
                    0 <= m < stack@.len() && trace@[#[trigger] stack@[m] as int].node == s,
                start == target ==> trace@.len() == 1 && stack@ =~= seq![0usize],
                forall|u: int, k: int|
                    0 <= u < adj.len() && visited@[u] && 0 <= k < adj[u].len()
                        ==> stacked_or_visited(
                        trace@,
                        stack@,
                        visited@,
                        (#[trigger] adj[u][k]).address.index(),
                    ),
                dfs_state_ok(adj, trace@, visited@, stack@),
                dfs_search(adj, trace@, visited@, stack@, t as int) == goal,
                dfs_outcome(adj, s as int, t as int) == (match goal {
                    Some(q) => q,
                    None => Seq::<TraceStep>::empty(),
                }),
            decreases count_unvisited(visited@), stack@.len(),
        {
            let ghost tr0 = trace@;
            let ghost stack0 = stack@;
            let ghost vis0 = visited@;
            let idx = match stack.pop() {
                Some(i) => i,
                None => 0,
            };
            let st = trace[idx];
            proof {
                assert(trace_step_ok(adj, trace@, s as int, idx as int));
            }
            if st.node == t {
                let r = reconstruct_path(graph, &trace, idx, Ghost(s as int));
                proof {
                    assert(stack0.last() == idx);
                    assert(dfs_search(adj, trace@, visited@, stack0, t as int) == Some(
                        trace_chain(trace@, idx as int).map_values(|i: int| trace@[i]),
                    ));
                    assert(dfs_search(adj, trace@, visited@, stack0, t as int) == goal);
                    assert(dfs_outcome(adj, s as int, t as int) == trace_chain(
                        trace@,
                        idx as int,
                    ).map_values(|i: int| trace@[i]));
                    assert(follows_steps(adj, dfs_outcome(adj, s as int, t as int), r@));
                    lemma_path_ok_reachable(adj, r@, s as int, t as int);
                    if start == target {
                        assert(idx == 0);
                        assert(trace@[0].parent is None);
                    }
                }
                return r;
            }
            if visited[st.node] {
                proof {
                    assert(stack0.last() == idx);
                    assert(stack@ =~= stack0.drop_last());
                    assert(dfs_search(adj, trace@, visited@, stack0, t as int) == dfs_search(
                        adj,
                        trace@,
                        visited@,
                        stack@,
                        t as int,
                    ));
                    assert forall|u: int, k: int|
                        0 <= u < adj.len() && visited@[u] && 0 <= k < adj[u].len()
                            implies stacked_or_visited(
                        trace@,
                        stack@,
                        visited@,
                        (#[trigger] adj[u][k]).address.index(),
                    ) by {
                        let v = adj[u][k].address.index();
                        assert(stacked_or_visited(tr0, stack0, vis0, v));
                        if !(0 <= v < vis0.len() && vis0[v]) {
                            let m = choose|m: int|
                                0 <= m < stack0.len() && tr0[#[trigger] stack0[m] as int].node
                                    as int == v;
                            if m == stack0.len() - 1 {
                                assert(v == st.node as int);
                                assert(visited@[v]);
                            } else {
                                assert(stack@[m] == stack0[m]);
                                assert(trace@[stack@[m] as int].node as int == v);
                            }
                        }
                    }
                    if !visited@[s as int] {
                        let m = choose|m: int|
                            0 <= m < stack0.len() && trace@[#[trigger] stack0[m] as int].node == s;
                        if m < stack0.len() - 1 {
                            assert(trace@[stack@[m] as int].node == s);
                        } else {
                            assert(st.node == s);
                        }
                    }
                }
            } else {
                proof {
                    lemma_count_unvisited_update(vis0, st.node as int);
                }
                visited.set(st.node, true);
                let ghost vis1 = visited@;
                let ghost stack1 = stack@;
                let edge_count = graph.nodes[st.node].outgoing.len();
                let mut k: usize = 0;
                while k < edge_count
                    invariant
                        adj == graph.adjacency(),
                        adjacency_wf(adj),
                        n as int == adj.len(),
                        (st.node as int) < adj.len(),
                        edge_count as int == adj[st.node as int].len(),
                        visited@ == vis1,
                        visited@.len() == n as int,
                        k <= edge_count,
                        trace@.len() >= tr0.len(),
                        forall|i: int| 0 <= i < tr0.len() ==> trace@[i] == tr0[i],
                        trace_wf(adj, trace@, s as int),
                        (idx as int) < tr0.len(),
                        trace@[idx as int].node == st.node,
                        stack@.len() == stack1.len() + k as int,
                        stack1 == stack0.drop_last(),
                        forall|m: int| 0 <= m < stack1.len() ==> stack@[m] == stack1[m],
                        trace@.len() == tr0.len() + k as int,
                        forall|kk: int|
                            0 <= kk < k as int ==> trace@[tr0.len() + kk] == dfs_children(
                                adj,
                                tr0,
                                idx as int,
                            )[kk],
                        forall|kk: int|
                            0 <= kk < k as int ==> (#[trigger] stack@[stack1.len() + kk]) == ((
                            tr0.len() + kk) as usize),
                        forall|m: int|
                            0 <= m < stack@.len() ==> (#[trigger] stack@[m] as int) < trace@.len(),
                        forall|kk: int|
                            0 <= kk < k as int ==> exists|m: int|
                                0 <= m < stack@.len() && trace@[#[trigger] stack@[m] as int].node
                                    as int == (#[trigger] adj[st.node as int][kk]).address.index(),
                    decreases edge_count - k,
                {
                    let ghost trb = trace@;
                    let ghost stackb = stack@;
                    let edge = &graph.nodes[st.node].outgoing[k];
                    let v = match edge.address {
                        NodeAddress::Local(i) => i,
                    };
                    let step = TraceStep { node: v, parent: Some(idx), edge: k };
                    trace.push(step);
                    stack.push(trace.len() - 1);
                    proof {
                        assert(adj[st.node as int][k as int].address.index() == v as int);
                        assert(trace@[trace@.len() - 1] == step);
                        assert(tr0[idx as int].node == st.node);
                        assert(dfs_children(adj, tr0, idx as int)[k as int] == step);
                        assert forall|j: int| 0 <= j < trace@.len() implies #[trigger] trace_step_ok(
                            adj,
                            trace@,
                            s as int,
                            j,
                        ) by {
                            if j < trace@.len() - 1 {
                                assert(trace_step_ok(adj, trb, s as int, j));
                            }
                        }
                        assert forall|kk: int| 0 <= kk < k as int + 1 implies exists|m: int|
                            0 <= m < stack@.len() && trace@[#[trigger] stack@[m] as int].node
                                as int == (#[trigger] adj[st.node as int][kk]).address.index() by {
                            if kk < k as int {
                                let m = choose|m: int|
                                    0 <= m < stackb.len() && trb[#[trigger] stackb[m] as int].node
                                        as int == adj[st.node as int][kk].address.index();
                                assert(stack@[m] == stackb[m]);
                                assert(trace@[stack@[m] as int].node as int == adj[st.node
                                    as int][kk].address.index());
                            } else {
                                assert(stack@[stack@.len() - 1] as int == trace@.len() - 1);
                                assert(trace@[stack@[stack@.len() - 1] as int].node as int
                                    == adj[st.node as int][kk].address.index());
                            }
                        }
                    }
                    k += 1;
                }
                let trace_len_now = trace.len();
                proof {
                    assert(count_unvisited(visited@) < count_unvisited(vis0));
                    assert(stack1 == stack0.subrange(0, stack0.len() - 1));
                    assert(trace@.len() == trace_len_now as int);
                    assert(stack0.last() == idx);
                    assert(tr0[idx as int].node == st.node);
                    assert(adj[tr0[idx as int].node as int].len() == edge_count as int);
                    let children = dfs_children(adj, tr0, idx as int);
                    assert(children.len() == edge_count as int);
                    assert(trace@ =~= tr0 + children);
                    assert(visited@ =~= vis0.update(st.node as int, true));
                    let pushed = Seq::new(
                        adj[tr0[idx as int].node as int].len(),
                        |kk: int| (tr0.len() + kk) as usize,
                    );
                    assert(pushed.len() == edge_count as int);
                    assert(stack@.len() == stack1.len() + pushed.len());
                    assert forall|m: int| 0 <= m < stack@.len() implies stack@[m] == (stack1
                        + pushed)[m] by {
                        if m < stack1.len() {
                        } else {
                            let kk = m - stack1.len();
                            assert(stack@[stack1.len() + kk] == ((tr0.len() + kk) as usize));
                            assert(pushed[kk] == ((tr0.len() + kk) as usize));
                        }
                    }
                    assert(stack@ =~= stack1 + pushed);
                    assert(stack@ =~= stack0.drop_last() + pushed);
                    assert(dfs_search(adj, tr0, vis0, stack0, t as int) == dfs_search(
                        adj,
                        trace@,
                        visited@,
                        stack@,
                        t as int,
                    ));
                    if !vis0[s as int] {
                        let m = choose|m: int|
                            0 <= m < stack0.len() && tr0[#[trigger] stack0[m] as int].node == s;
                        if m == stack0.len() - 1 {
                            assert(st.node == s);
                            assert(visited@[s as int]);
                        } else {
                            assert(stack1[m] == stack0[m]);
                            assert(stack@[m] == stack1[m]);
                            assert(trace@[stack@[m] as int].node == s);
                        }
                    }
                    assert forall|u: int, kk: int|
                        0 <= u < adj.len() && visited@[u] && 0 <= kk < adj[u].len()
                            implies stacked_or_visited(
                        trace@,
                        stack@,
                        visited@,
                        (#[trigger] adj[u][kk]).address.index(),
                    ) by {
                        let v = adj[u][kk].address.index();
                        if u == st.node as int {
                            assert(exists|m: int|
                                0 <= m < stack@.len() && trace@[#[trigger] stack@[m] as int].node
                                    as int == (#[trigger] adj[st.node as int][kk]).address.index());
                        } else {
                            assert(vis0[u]);
                            assert(stacked_or_visited(tr0, stack0, vis0, v));
                            if !(0 <= v < vis0.len() && vis0[v]) {
                                let m = choose|m: int|
                                    0 <= m < stack0.len() && tr0[#[trigger] stack0[m] as int].node
                                        as int == v;
                                if m == stack0.len() - 1 {
                                    assert(v == st.node as int);
                                    assert(visited@[v]);
                                } else {
                                    assert(stack1[m] == stack0[m]);
                                    assert(stack@[m] == stack1[m]);
                                    assert(trace@[stack@[m] as int].node as int == v);
                                }
                            }
                        }
                    }
                }
            }
        }
        proof {
            assert(visited@[s as int]);
            assert forall|u: int, v: int|
                0 <= u < adj.len() && visited@[u] && #[trigger] crate::path_queries::has_edge(
                adj,
                u,
                v,
            ) implies 0 <= v < adj.len() && visited@[v] by {
                let k = choose|k: int|
                    0 <= k < adj[u].len() && (#[trigger] adj[u][k]).address.index() == v;
                assert(stacked_or_visited(trace@, stack@, visited@, v));
                assert(adj[u][k].address.local_within(adj.len() as int));
            }
            lemma_closed_unreachable(adj, visited@, s as int, t as int);
            assert(dfs_search(adj, trace@, visited@, stack@, t as int) == None::<
                Seq<TraceStep>,
            >);
            assert(follows_steps(
                adj,
                Seq::<TraceStep>::empty(),
                Seq::<NodePathLink<R>>::empty(),
            ));
        }
        Vec::new()
    }
}

/// Rebuilds the path described by the chain of trace entry `tip`.
///
/// Same construction as [`crate::path_queries::reconstruct_path`], reading
/// edges out of a [`Graph`] instead of an
/// [`crate::EmbeddedPropertyGraph`].
#[verifier::rlimit(60)]
fn reconstruct_path<T, R: Clone>(
    graph: &Graph<T, R>,
    trace: &Vec<TraceStep>,
    tip: usize,
    Ghost(s): Ghost<int>,
) -> (r: Vec<NodePathLink<R>>)
    requires
        trace_wf(graph.adjacency(), trace@, s),
        (tip as int) < trace@.len(),
    ensures
        path_ok(graph.adjacency(), r@, s, trace@[tip as int].node as int),
        r@.len() == trace_chain(trace@, tip as int).len(),
        follows_steps(
            graph.adjacency(),
            trace_chain(trace@, tip as int).map_values(|i: int| trace@[i]),
            r@,
        ),
{
    let ghost adj = graph.adjacency();
    let ghost chain = trace_chain(trace@, tip as int);
    proof {
        lemma_trace_chain_props(adj, trace@, s, tip as int);
    }
    let mut rev: Vec<usize> = Vec::new();
    let mut cur: usize = tip;
    rev.push(cur);
    while trace[cur].parent.is_some()
        invariant
            trace_wf(adj, trace@, s),
            adj == graph.adjacency(),
            (tip as int) < trace@.len(),
            chain == trace_chain(trace@, tip as int),
            (cur as int) < trace@.len(),
            1 <= rev@.len() <= chain.len(),
            forall|m: int| 0 <= m < rev@.len() ==> rev@[m] as int == chain[chain.len() - 1 - m],
            rev@.last() == cur,
            trace_chain(trace@, cur as int) == chain.subrange(0, chain.len() - rev@.len() + 1),
        decreases cur,
    {
        let st = trace[cur];
        let p = match st.parent {
            Option::Some(p) => p,
            Option::None => 0,
        };
        proof {
            assert(trace_step_ok(adj, trace@, s, cur as int));
            let c0 = trace_chain(trace@, p as int);
            assert(trace_chain(trace@, cur as int) == c0.push(cur as int));
            lemma_trace_chain_props(adj, trace@, s, p as int);
            assert(c0.last() == p as int);
            assert(c0 =~= chain.subrange(0, chain.len() - rev@.len()));
            assert(chain[chain.len() - rev@.len() - 1] == c0.last());
        }
        cur = p;
        rev.push(cur);
    }
    proof {
        assert(trace_chain(trace@, cur as int) == seq![cur as int]);
        assert(chain.len() - rev@.len() + 1 == 1);
        assert(rev@.len() == chain.len());
    }
    let total = rev.len();
    let trace_total = trace.len();
    let mut out: Vec<NodePathLink<R>> = Vec::new();
    let mut m: usize = 0;
    while m < total
        invariant
            trace_wf(adj, trace@, s),
            adj == graph.adjacency(),
            (tip as int) < trace@.len(),
            trace@.len() == trace_total as int,
            chain == trace_chain(trace@, tip as int),
            chain.len() >= 1,
            chain.last() == tip as int,
            forall|i: int| 0 <= i < chain.len() ==> 0 <= #[trigger] chain[i] < trace@.len(),
            trace@[chain[0]].parent is None,
            trace@[chain[0]].node as int == s,
            forall|i: int|
                1 <= i < chain.len() ==> trace@[#[trigger] chain[i]].parent == Option::Some(
                    chain[i - 1] as usize,
                ),
            total == rev@.len(),
            rev@.len() == chain.len(),
            forall|i: int| 0 <= i < rev@.len() ==> rev@[i] as int == chain[chain.len() - 1 - i],
            m <= total,
            out@.len() == m,
            forall|i: int|
                0 <= i < m ==> (#[trigger] out@[i]).address.index() == trace@[chain[i]].node as int,
            forall|i: int|
                0 <= i < m ==> (#[trigger] out@[i]).address.local_within(adj.len() as int),
            m > 0 ==> out@[0].relation is None,
            forall|i: int| 1 <= i < m ==> links_edge(adj, out@[i - 1].address.index(), #[trigger] out@[i]),
            forall|i: int|
                1 <= i < m ==> {
                    let u = trace@[chain[i - 1]].node as int;
                    let e = trace@[chain[i]].edge as int;
                    &&& 0 <= e < adj[u].len()
                    &&& (#[trigger] out@[i]).address == adj[u][e].address
                    &&& out@[i].relation is Some
                    &&& cloned::<R>(adj[u][e].relation, out@[i].relation->Some_0)
                },
        decreases total - m,
    {
        let idx = rev[total - 1 - m];
        let st = trace[idx];
        proof {
            assert(rev@[total - 1 - m] as int == chain[m as int]);
            assert(trace_step_ok(adj, trace@, s, idx as int));
        }
        match st.parent {
            Option::None => {
                proof {
                    if m > 0 {
                        assert(trace@[chain[m as int]].parent == Option::Some(
                            chain[m as int - 1] as usize,
                        ));
                        assert(false);
                    }
                }
                out.push(NodePathLink { relation: None, address: NodeAddress::Local(st.node) });
            },
            Option::Some(p) => {
                proof {
                    if m == 0 {
                        assert(trace@[chain[0]].parent is None);
                        assert(false);
                    }
                    assert(trace@[chain[m as int]].parent == Option::Some(
                        chain[m as int - 1] as usize,
                    ));
                    assert(p == chain[m as int - 1] as usize);
                    assert(0 <= chain[m as int - 1] < trace@.len());
                    assert(p as int == chain[m as int - 1]);
                    assert(trace_step_ok(adj, trace@, s, p as int));
                }
                let pnode = trace[p].node;
                let edge = &graph.nodes[pnode].outgoing[st.edge];
                let link = NodePathLink {
                    relation: Some(edge.relation.clone()),
                    address: edge.address,
                };
                proof {
                    assert(adj[pnode as int] == graph.nodes@[pnode as int].outgoing@);
                    assert(adj[pnode as int][st.edge as int].address.index() == st.node as int);
                    assert(out@[m as int - 1].address.index() == trace@[chain[m as int - 1]].node as int);
                }
                out.push(link);
                proof {
                    assert(links_edge(adj, pnode as int, out@.last()));
                    assert(pnode == trace@[chain[m as int - 1]].node);
                    assert(st.edge == trace@[chain[m as int]].edge);
                    assert(out@[m as int].address == adj[pnode as int][st.edge as int].address);
                    assert(cloned::<R>(
                        adj[pnode as int][st.edge as int].relation,
                        out@[m as int].relation->Some_0,
                    ));
                }
            },
        }
        m += 1;
    }
    proof {
        assert(out@.last().address.index() == trace@[chain[chain.len() - 1]].node as int);
        let steps = chain.map_values(|i: int| trace@[i]);
        assert(steps.len() == chain.len());
        assert forall|i: int| 0 <= i < out@.len() implies (#[trigger] out@[i]).address.index()
            == steps[i].node as int by {
            assert(out@[i].address.index() == trace@[chain[i]].node as int);
        }
        assert forall|i: int|
            1 <= i < out@.len() implies {
            let u = steps[i - 1].node as int;
            let e = steps[i].edge as int;
            &&& 0 <= e < adj[u].len()
            &&& (#[trigger] out@[i]).address == adj[u][e].address
            &&& out@[i].relation is Some
            &&& cloned::<R>(adj[u][e].relation, out@[i].relation->Some_0)
        } by {
            assert(steps[i - 1] == trace@[chain[i - 1]]);
            assert(steps[i] == trace@[chain[i]]);
        }
        assert(follows_steps(adj, steps, out@));
    }
    out
}

impl Default for DepthFirstSearch {
    /// The solver is stateless; the default value is the only value.
    fn default() -> (r: Self) {
        DepthFirstSearch
    }
}

} // verus!

//! A breadth-first search solver.

use vstd::prelude::*;
use crate::embedded_property_graph::EmbeddedPropertyGraph;
use crate::node_address::NodeAddress;
use crate::node_relation::{NodePathLink, NodeRelation};
use crate::path_queries::{
    adjacency_wf, count_unvisited, follows_steps, has_edge, index_path_ok,
    lemma_closed_unreachable, lemma_count_unvisited_update, lemma_index_path_reach_within,
    lemma_path_ok_reachable, lemma_trace_chain_push, path_ok, reach_within, reachable,
    reconstruct_path, trace_chain, trace_depth, trace_step_ok, trace_wf, TraceStep,
};

verus! {

/// Some still-queued trace entry (index `head` or later) delivers the node
/// at row `v` at a chain depth of at most `d` nodes.
pub open spec fn queued_within(tr: Seq<TraceStep>, head: int, v: int, d: int) -> bool {
    exists|i: int|
        head <= i < tr.len() && (#[trigger] tr[i]).node as int == v && trace_depth(tr, i) <= d
}

/// A breadth-first state is fit to run: the visited table has one slot per
/// node row, every trace entry names a valid row, and the trace fits in
/// memory.
pub open spec fn bfs_state_ok<R>(
    adj: Seq<Seq<NodeRelation<R>>>,
    tr: Seq<TraceStep>,
    vis: Seq<bool>,
    head: int,
) -> bool {
    &&& adjacency_wf(adj)
    &&& vis.len() == adj.len()
    &&& 0 <= head
    &&& tr.len() <= usize::MAX as int
    &&& forall|j: int| 0 <= j < tr.len() ==> ((#[trigger] tr[j]).node as int) < adj.len()
}

/// The trace entries a breadth-first visit of `tr[head]`'s node appends:
/// one per outgoing edge, in edge order.
pub open spec fn bfs_children<R>(
    adj: Seq<Seq<NodeRelation<R>>>,
    tr: Seq<TraceStep>,
    head: int,
) -> Seq<TraceStep> {
    Seq::new(
        adj[tr[head].node as int].len(),
        |k: int|
            TraceStep {
                node: adj[tr[head].node as int][k].address.index() as usize,
                parent: Some(head as usize),
                edge: k as usize,
            },
    )
}

/// The whole breadth-first run, as a function: from the given trace,
/// visited table and queue head, the trace steps of the answer path (the
/// node reached and the edge traversed, per element), or `None` when the
/// queue empties without delivering `t`.
pub open spec fn bfs_search<R>(
    adj: Seq<Seq<NodeRelation<R>>>,
    tr: Seq<TraceStep>,
    vis: Seq<bool>,
    head: int,
    t: int,
) -> Option<Seq<TraceStep>>
    decreases count_unvisited(vis), tr.len() - head,
        when bfs_state_ok(adj, tr, vis, head)
        via bfs_search_decreases::<R>
{
    if head >= tr.len() {
        None
    } else if tr[head].node as int == t {
        Some(trace_chain(tr, head).map_values(|i: int| tr[i]))
    } else if vis[tr[head].node as int] {
        bfs_search(adj, tr, vis, head + 1, t)
    } else {
        bfs_search(
            adj,
            tr + bfs_children(adj, tr, head),
            vis.update(tr[head].node as int, true),
            head + 1,
            t,
        )
    }
}

#[via_fn]
proof fn bfs_search_decreases<R>(
    adj: Seq<Seq<NodeRelation<R>>>,
    tr: Seq<TraceStep>,
    vis: Seq<bool>,
    head: int,
    t: int,
) {
    if head < tr.len() && tr[head].node as int != t && !vis[tr[head].node as int] {
        lemma_count_unvisited_update(vis, tr[head].node as int);
    }
}

/// The steps of the answer the breadth-first solver gives for a query
/// from row `s` to row `t` — the node reached and the edge traversed, per
/// element — or the empty sequence when `t` is unreachable.
pub open spec fn bfs_outcome<R>(adj: Seq<Seq<NodeRelation<R>>>, s: int, t: int) -> Seq<TraceStep> {
    match bfs_search(
        adj,
        seq![TraceStep { node: s as usize, parent: None, edge: 0usize }],
        Seq::new(adj.len(), |i: int| false),
        0,
        t,
    ) {
        Some(q) => q,
        None => Seq::empty(),
    }
}

/// Running the breadth-first solver twice on an unmodified graph with the
/// same start and target yields paths over exactly the same node
/// addresses, each step of both runs carrying a clone of the same recorded
/// edge's relation value: the answer is a function of the query alone.
pub proof fn lemma_bfs_deterministic<R: Clone>(
    adj: Seq<Seq<NodeRelation<R>>>,
    first: Seq<NodePathLink<R>>,
    second: Seq<NodePathLink<R>>,
    s: int,
    t: int,
)
    requires
        follows_steps(adj, bfs_outcome(adj, s, t), first),
        follows_steps(adj, bfs_outcome(adj, s, t), second),
    ensures
        first.len() == second.len(),
        forall|i: int| 0 <= i < first.len() ==> (#[trigger] first[i]).address == second[i].address,
        forall|i: int|
            1 <= i < first.len() ==> ({
                let steps = bfs_outcome(adj, s, t);
                let rel = adj[steps[i - 1].node as int][steps[i].edge as int].relation;
                &&& (#[trigger] first[i]).relation is Some
                &&& second[i].relation is Some
                &&& cloned::<R>(rel, first[i].relation->Some_0)
                &&& cloned::<R>(rel, second[i].relation->Some_0)
            }),
{
    let steps = bfs_outcome(adj, s, t);
    assert forall|i: int| 0 <= i < first.len() implies (#[trigger] first[i]).address
        == second[i].address by {
        if i == 0 {
            assert(first[i].address.index() == steps[i].node as int);
            assert(second[i].address.index() == steps[i].node as int);
        } else {
            assert(first[i].address == adj[steps[i - 1].node as int][steps[i].edge
                as int].address);
            assert(second[i].address == adj[steps[i - 1].node as int][steps[i].edge
                as int].address);
        }
    }
}

/// Answers meeting [`BreadthFirstSearch::shortest_path`]'s contract agree
/// on whether a path exists and on how many elements the path has: over
/// repeated runs of the solver on an unmodified graph, the length of the
/// answer is a function of the query alone.
pub proof fn lemma_bfs_answers_agree_on_length<R: Clone>(
    adj: Seq<Seq<NodeRelation<R>>>,
    first: Seq<NodePathLink<R>>,
    second: Seq<NodePathLink<R>>,
    s: int,
    t: int,
)
    requires
        first.len() > 0 ==> path_ok(adj, first, s, t),
        first.len() > 0 <==> reachable(adj, s, t),
        first.len() > 0 ==> forall|q: Seq<int>| index_path_ok(adj, q, s, t) ==> first.len()
            <= q.len(),
        second.len() > 0 ==> path_ok(adj, second, s, t),
        second.len() > 0 <==> reachable(adj, s, t),
        second.len() > 0 ==> forall|q: Seq<int>| index_path_ok(adj, q, s, t) ==> second.len()
            <= q.len(),
    ensures
        first.len() == second.len(),
{
    if reachable(adj, s, t) {
        lemma_path_ok_reachable(adj, first, s, t);
        lemma_path_ok_reachable(adj, second, s, t);
        let q1 = first.map_values(|l: NodePathLink<R>| l.address.index());
        let q2 = second.map_values(|l: NodePathLink<R>| l.address.index());
        assert(first.len() <= q2.len());
        assert(second.len() <= q1.len());
    }
}

/// A breadth-first answer is never longer than any other valid path
/// between the same endpoints, whether that path came from the depth-first
/// solver, from A*, or from exhaustive search: breadth-first path length
/// is minimal.
pub proof fn lemma_bfs_minimal_against_any_path<R: Clone>(
    adj: Seq<Seq<NodeRelation<R>>>,
    answer: Seq<NodePathLink<R>>,
    other: Seq<NodePathLink<R>>,
    s: int,
    t: int,
)
    requires
        answer.len() > 0 ==> path_ok(adj, answer, s, t),
        answer.len() > 0 <==> reachable(adj, s, t),
        answer.len() > 0 ==> forall|q: Seq<int>| index_path_ok(adj, q, s, t) ==> answer.len()
            <= q.len(),
        path_ok(adj, other, s, t),
    ensures
        0 < answer.len() <= other.len(),
{
    lemma_path_ok_reachable(adj, other, s, t);
    let q = other.map_values(|l: NodePathLink<R>| l.address.index());
    assert(answer.len() <= q.len());
}

/// A breadth-first search (BFS) solver for shortest path queries.
#[derive(Debug)]
pub struct BreadthFirstSearch;

impl BreadthFirstSearch {
    /// Performs a shortest path query on the specified graph, starting at
    /// the `start` node, attempting to reach the `target` node.
    ///
    /// Returns a path from `start` to `target`, or an empty vector exactly
    /// when no such path exists.  A returned path never has more elements
    /// than any other walk between the two nodes: BFS answers are minimal
    /// in edge count.  When `start == target` the result is the
    /// single-element path holding the start node and no relation.
    #[verifier::rlimit(100)]
    pub fn shortest_path<N, R: Clone>(
        &self,
        graph: &EmbeddedPropertyGraph<N, R>,
        start: NodeAddress,
        target: NodeAddress,
    ) -> (r: Vec<NodePathLink<R>>)
        requires
            graph.wf(),
            start.local_within(graph.nodes@.len() as int),
            target.local_within(graph.nodes@.len() as int),
        ensures
            r@.len() > 0 ==> path_ok(graph.adjacency(), r@, start.index(), target.index()),
            r@.len() > 0 <==> reachable(graph.adjacency(), start.index(), target.index()),
            r@.len() > 0 ==> forall|q: Seq<int>|
                index_path_ok(graph.adjacency(), q, start.index(), target.index()) ==> r@.len()
                    <= q.len(),
            start == target ==> r@.len() == 1,
            follows_steps(
                graph.adjacency(),
                bfs_outcome(graph.adjacency(), start.index(), target.index()),
                r@,
            ),
    {
        let ghost adj = graph.adjacency();
        let n = graph.nodes.len();
        let s = match start {
            NodeAddress::Local(i) => i,
        };
        let t = match target {
            NodeAddress::Local(i) => i,
        };
        let mut visited: Vec<bool> = Vec::new();
        let mut vi: usize = 0;
        while vi < n
            invariant
                vi <= n,
                visited@.len() == vi as int,
                forall|i: int| 0 <= i < vi as int ==> !visited@[i],
            decreases n - vi,
        {
            visited.push(false);
            vi += 1;
        }
        let mut trace: Vec<TraceStep> = Vec::new();
        trace.push(TraceStep { node: s, parent: None, edge: 0 });
        let ghost mut best: Seq<int> = Seq::new(n as nat, |v: int| 0);
        let mut head: usize = 0;
        let ghost goal = bfs_search(adj, trace@, visited@, 0, t as int);
        proof {
            assert(trace_depth(trace@, 0) == 1);
            assert(visited@ =~= Seq::new(adj.len(), |i: int| false));
            assert(trace@ =~= seq![TraceStep { node: s, parent: None, edge: 0usize }]);
            assert(bfs_outcome(adj, s as int, t as int) == (match goal {
                Some(q) => q,
                None => Seq::<TraceStep>::empty(),
            }));
        }
        while head < trace.len()
            invariant
                adj == graph.adjacency(),
                adjacency_wf(adj),
                n as int == adj.len(),
                s as int == start.index(),
                t as int == target.index(),
                (s as int) < adj.len(),
                (t as int) < adj.len(),
                visited@.len() == n as int,
                best.len() == n as int,
                trace@.len() >= 1,
                head as int <= trace@.len(),
                trace_wf(adj, trace@, s as int),
                !visited@[t as int],
                head > 0 ==> visited@[s as int],
                head > 0 ==> s != t,
                head == 0 ==> forall|v: int| 0 <= v < n as int ==> !visited@[v],
                forall|i: int, j: int|
                    0 <= i <= j < trace@.len() ==> trace_depth(trace@, i) <= trace_depth(
                        trace@,
                        j,
                    ),
                forall|i: int|
                    head as int <= i < trace@.len() ==> trace_depth(trace@, i) <= trace_depth(
                        trace@,
                        head as int,
                    ) + 1,
                forall|u: int, k: nat|
                    0 <= u < n as int && visited@[u] && reach_within(adj, s as int, u, k)
                        ==> best[u] <= k + 1,
                forall|u: int, kk: int|
                    0 <= u < n as int && visited@[u] && 0 <= kk < adj[u].len()
                        ==> visited@[(#[trigger] adj[u][kk]).address.index()] || queued_within(
                        trace@,
                        head as int,
                        adj[u][kk].address.index(),
                        best[u] + 1,
                    ),
                forall|v: int, k: nat|
                    0 <= v < n as int && reach_within(adj, s as int, v, k) && k + 1 < trace_depth(
                        trace@,
                        head as int,
                    ) ==> visited@[v] || queued_within(trace@, head as int, v, k as int + 1),
                bfs_state_ok(adj, trace@, visited@, head as int),
                bfs_search(adj, trace@, visited@, head as int, t as int) == goal,
                bfs_outcome(adj, s as int, t as int) == (match goal {
                    Some(q) => q,
                    None => Seq::<TraceStep>::empty(),
                }),
            decreases count_unvisited(visited@), trace@.len() - head,
        {
            let ghost tr0 = trace@;
            let ghost vis0 = visited@;
            let ghost head0 = head as int;
            let ghost d0 = trace_depth(tr0, head0);
            let st = trace[head];
            proof {
                assert(trace_step_ok(adj, trace@, s as int, head as int));
            }
            if st.node == t {
                let r = reconstruct_path(graph, &trace, head, Ghost(s as int));
                proof {
                    lemma_path_ok_reachable(adj, r@, s as int, t as int);
                    assert(bfs_search(adj, trace@, visited@, head0, t as int) == Some(
                        trace_chain(trace@, head0).map_values(|i: int| trace@[i]),
                    ));
                    assert(follows_steps(adj, bfs_outcome(adj, s as int, t as int), r@));
                    if start == target {
                        assert(head == 0);
                        assert(trace@[0].parent is None);
                    }
                    assert forall|q: Seq<int>|
                        index_path_ok(adj, q, s as int, t as int) implies r@.len() <= q.len() by {
                        lemma_index_path_reach_within(adj, q, s as int, t as int);
                        let k = (q.len() - 1) as nat;
                        if k + 1 < d0 {
                            assert(visited@[t as int] || queued_within(
                                trace@,
                                head0,
                                t as int,
                                k as int + 1,
                            ));
                            let i = choose|i: int|
                                head0 <= i < trace@.len() && (#[trigger] trace@[i]).node as int == t
                                    as int && trace_depth(trace@, i) <= k as int + 1;
                            assert(trace_depth(trace@, head0) <= trace_depth(trace@, i));
                            assert(false);
                        }
                        assert(r@.len() == d0);
                    }
                }
                return r;
            }
            let cur_idx = head;
            head = head + 1;
            let ghost h1 = head as int;
            if visited[st.node] {
                proof {
                    assert(head0 > 0);
                    assert(bfs_search(adj, trace@, visited@, head0, t as int) == bfs_search(
                        adj,
                        trace@,
                        visited@,
                        h1,
                        t as int,
                    ));
                    if h1 < trace@.len() {
                        assert(trace_depth(trace@, head0) <= trace_depth(trace@, h1));
                        assert(trace_depth(trace@, h1) <= trace_depth(trace@, head0) + 1);
                    } else {
                        assert(trace_depth(trace@, h1) == 1);
                    }
                    assert forall|u: int, kk: int|
                        0 <= u < n as int && visited@[u] && 0 <= kk < adj[u].len()
                            implies visited@[(#[trigger] adj[u][kk]).address.index()]
                        || queued_within(trace@, h1, adj[u][kk].address.index(), best[u] + 1) by {
                        let v = adj[u][kk].address.index();
                        if !visited@[v] {
                            let i = choose|i: int|
                                head0 <= i < trace@.len() && (#[trigger] trace@[i]).node as int == v
                                    && trace_depth(trace@, i) <= best[u] + 1;
                            if i == head0 {
                                assert(visited@[v]);
                            } else {
                                assert(queued_within(trace@, h1, v, best[u] + 1));
                            }
                        }
                    }
                    assert forall|v: int, k: nat|
                        0 <= v < n as int && reach_within(adj, s as int, v, k) && k + 1
                            < trace_depth(trace@, h1) implies visited@[v] || queued_within(
                        trace@,
                        h1,
                        v,
                        k as int + 1,
                    ) by {
                        if h1 == trace@.len() {
                            assert(trace_depth(trace@, h1) == 1);
                        }
                        if !visited@[v] {
                            if k + 1 < d0 {
                                let i = choose|i: int|
                                    head0 <= i < trace@.len() && (#[trigger] trace@[i]).node as int
                                        == v && trace_depth(trace@, i) <= k as int + 1;
                                if i == head0 {
                                    assert(visited@[v]);
                                } else {
                                    assert(queued_within(trace@, h1, v, k as int + 1));
                                }
                            } else {
                                assert(k + 1 == d0);
                                if v == s as int {
                                    assert(visited@[v]);
                                } else {
                                    assert(k > 0);
                                    let u = choose|u: int|
                                        reach_within(adj, s as int, u, (k - 1) as nat)
                                            && #[trigger] has_edge(adj, u, v);
                                    assert((k - 1) + 1 < d0);
                                    if !visited@[u] {
                                        let i = choose|i: int|
                                            head0 <= i < trace@.len() && (#[trigger] trace@[i]).node
                                                as int == u && trace_depth(trace@, i) <= k as int;
                                        assert(trace_depth(trace@, head0) <= trace_depth(
                                            trace@,
                                            i,
                                        ));
                                        assert(false);
                                    }
                                    assert(best[u] <= k);
                                    let kk = choose|kk: int|
                                        0 <= kk < adj[u].len() && (#[trigger] adj[u][kk]).address.index()
                                            == v;
                                    if !visited@[v] {
                                        let i = choose|i: int|
                                            head0 <= i < trace@.len() && (#[trigger] trace@[i]).node
                                                as int == v && trace_depth(trace@, i) <= best[u]
                                                + 1;
                                        if i == head0 {
                                            assert(visited@[v]);
                                        } else {
                                            assert(trace_depth(trace@, i) <= k as int + 1);
                                            assert(queued_within(trace@, h1, v, k as int + 1));
                                        }
                                    }
                                }
                            }
                        }
                    }
                }
            } else {
                proof {
                    lemma_count_unvisited_update(vis0, st.node as int);
                    best = best.update(st.node as int, d0 as int);
                }
                visited.set(st.node, true);
                let ghost vis1 = visited@;
                let edge_count = graph.nodes[st.node].outgoing.len();
                let mut k: usize = 0;
                while k < edge_count
                    invariant
                        adj == graph.adjacency(),
                        adjacency_wf(adj),
                        n as int == adj.len(),
                        (st.node as int) < adj.len(),
                        edge_count as int == adj[st.node as int].len(),
                        visited@ == vis1,
                        visited@.len() == n as int,
                        k <= edge_count,
                        trace@.len() >= tr0.len(),
                        tr0.len() >= 1,
                        forall|i: int| 0 <= i < tr0.len() ==> trace@[i] == tr0[i],
                        trace_wf(adj, trace@, s as int),
                        head as int <= tr0.len(),
                        (cur_idx as int) < tr0.len(),
                        head0 == cur_idx as int,
                        trace@[cur_idx as int].node == st.node,
                        d0 == trace_depth(tr0, cur_idx as int),
                        forall|i: int|
                            0 <= i < tr0.len() ==> trace_depth(trace@, i) == trace_depth(tr0, i),
                        forall|i: int|
                            tr0.len() <= i < trace@.len() ==> (#[trigger] trace@[i]).parent
                                == Some(cur_idx) && trace_depth(trace@, i) == d0 + 1,
                        trace@.len() == tr0.len() + k as int,
                        forall|kk: int|
                            0 <= kk < k as int ==> trace@[tr0.len() + kk] == bfs_children(
                                adj,
                                tr0,
                                head0,
                            )[kk],
                        forall|kk: int|
                            0 <= kk < k as int ==> exists|i: int|
                                tr0.len() <= i < trace@.len() && (#[trigger] trace@[i]).node
                                    as int == (#[trigger] adj[st.node as int][kk]).address.index(),
                    decreases edge_count - k,
                {
                    let ghost trb = trace@;
                    let edge = &graph.nodes[st.node].outgoing[k];
                    let v = match edge.address {
                        NodeAddress::Local(i) => i,
                    };
                    let step = TraceStep { node: v, parent: Some(cur_idx), edge: k };
                    trace.push(step);
                    proof {
                        assert(adj[st.node as int][k as int].address.index() == v as int);
                        assert(trace@[trace@.len() - 1] == step);
                        assert forall|j: int| 0 <= j < trace@.len() implies #[trigger] trace_step_ok(
                            adj,
                            trace@,
                            s as int,
                            j,
                        ) by {
                            if j < trace@.len() - 1 {
                                assert(trace_step_ok(adj, trb, s as int, j));
                            }
                        }
                        assert forall|i: int| 0 <= i < trace@.len() - 1 implies trace_depth(
                            trace@,
                            i,
                        ) == trace_depth(trb, i) by {
                            lemma_trace_chain_push(trb, step, i);
                        }
                        assert(trace_depth(trace@, cur_idx as int) == d0);
                        assert(trace@[trace@.len() - 1].parent == Some(cur_idx));
                        assert(trace_depth(trace@, trace@.len() - 1) == d0 + 1);
                        assert(tr0[head0].node == st.node);
                        assert(bfs_children(adj, tr0, head0)[k as int] == step);
                        assert forall|kk: int| 0 <= kk < k as int + 1 implies exists|i: int|
                            tr0.len() <= i < trace@.len() && (#[trigger] trace@[i]).node as int
                                == (#[trigger] adj[st.node as int][kk]).address.index() by {
                            if kk < k as int {
                                let i = choose|i: int|
                                    tr0.len() <= i < trb.len() && (#[trigger] trb[i]).node as int
                                        == adj[st.node as int][kk].address.index();
                                assert(trace@[i].node as int == adj[st.node
                                    as int][kk].address.index());
                            } else {
                                assert(trace@[trace@.len() - 1].node as int == adj[st.node
                                    as int][kk].address.index());
                            }
                        }
                    }
                    k += 1;
                }
                let trace_len_now = trace.len();
                proof {
                    let u0 = st.node as int;
                    assert(count_unvisited(visited@) < count_unvisited(vis0));
                    assert(visited@[s as int]);
                    assert(head0 == cur_idx as int);
                    assert(trace@.len() == trace_len_now as int);
                    let children = bfs_children(adj, tr0, head0);
                    assert(children.len() == edge_count as int);
                    assert(trace@ =~= tr0 + children);
                    assert(visited@ =~= vis0.update(u0, true));
                    assert(bfs_search(adj, tr0, vis0, head0, t as int) == bfs_search(
                        adj,
                        trace@,
                        visited@,
                        h1,
                        t as int,
                    ));
                    // chain depths are monotone over the whole trace
                    assert forall|i: int, j: int|
                        0 <= i <= j < trace@.len() implies trace_depth(trace@, i) <= trace_depth(
                        trace@,
                        j,
                    ) by {
                        if j < tr0.len() {
                            assert(trace_depth(trace@, i) == trace_depth(tr0, i));
                            assert(trace_depth(trace@, j) == trace_depth(tr0, j));
                            assert(trace_depth(tr0, i) <= trace_depth(tr0, j));
                        } else {
                            assert(trace@[j].parent == Some(cur_idx));
                            assert(trace_depth(trace@, j) == d0 + 1);
                            if i < tr0.len() {
                                if head0 <= i {
                                    assert(trace_depth(tr0, i) <= trace_depth(tr0, head0) + 1);
                                } else {
                                    assert(trace_depth(tr0, i) <= trace_depth(tr0, head0));
                                }
                            } else {
                                assert(trace@[i].parent == Some(cur_idx));
                                assert(trace_depth(trace@, i) == d0 + 1);
                            }
                        }
                    }
                    // the two-level band around the new head
                    assert forall|i: int|
                        h1 <= i < trace@.len() implies trace_depth(trace@, i) <= trace_depth(
                        trace@,
                        h1,
                    ) + 1 by {
                        if h1 < trace@.len() {
                            assert(trace_depth(trace@, head0) <= trace_depth(trace@, h1));
                            if i < tr0.len() {
                                assert(trace_depth(tr0, i) <= d0 + 1);
                            } else {
                                assert(trace@[i].parent == Some(cur_idx));
                                assert(trace_depth(trace@, i) == d0 + 1);
                            }
                        }
                    }
                    // the popped node was visited at its exact distance
                    assert forall|kx: nat|
                        reach_within(adj, s as int, u0, kx) implies best[u0] <= kx + 1 by {
                        if kx + 1 < d0 {
                            assert(vis0[u0] || queued_within(tr0, head0, u0, kx as int + 1));
                            let i = choose|i: int|
                                head0 <= i < tr0.len() && (#[trigger] tr0[i]).node as int == u0
                                    && trace_depth(tr0, i) <= kx as int + 1;
                            assert(trace_depth(tr0, head0) <= trace_depth(tr0, i));
                            assert(false);
                        }
                    }
                    // minimal distances of previously visited nodes carry over
                    assert forall|u: int, kx: nat|
                        0 <= u < n as int && visited@[u] && reach_within(adj, s as int, u, kx)
                            implies best[u] <= kx + 1 by {
                        if u != u0 {
                            assert(vis0[u]);
                        }
                    }
                    // every edge of a visited node stays covered
                    assert forall|u: int, kk: int|
                        0 <= u < n as int && visited@[u] && 0 <= kk < adj[u].len()
                            implies visited@[(#[trigger] adj[u][kk]).address.index()]
                        || queued_within(trace@, h1, adj[u][kk].address.index(), best[u] + 1) by {
                        let v = adj[u][kk].address.index();
                        if !visited@[v] {
                            if u == u0 {
                                let i = choose|i: int|
                                    tr0.len() <= i < trace@.len() && (#[trigger] trace@[i]).node
                                        as int == (#[trigger] adj[u0][kk]).address.index();
                                assert(trace@[i].parent == Some(cur_idx));
                                assert(trace_depth(trace@, i) == d0 + 1);
                                assert(tr0.len() >= h1);
                                assert(queued_within(trace@, h1, v, best[u0] + 1));
                            } else {
                                assert(vis0[u]);
                                assert(vis0[u] && queued_within(tr0, head0, v, best[u] + 1));
                                let i = choose|i: int|
                                    head0 <= i < tr0.len() && (#[trigger] tr0[i]).node as int == v
                                        && trace_depth(tr0, i) <= best[u] + 1;
                                if i == head0 {
                                    assert(v == u0);
                                    assert(visited@[v]);
                                } else {
                                    assert(trace@[i].node as int == v);
                                    assert(trace_depth(trace@, i) <= best[u] + 1);
                                    assert(queued_within(trace@, h1, v, best[u] + 1));
                                }
                            }
                        }
                    }
                    // nodes within the frontier distance stay covered
                    assert forall|v: int, kx: nat|
                        0 <= v < n as int && reach_within(adj, s as int, v, kx) && kx + 1
                            < trace_depth(trace@, h1) implies visited@[v] || queued_within(
                        trace@,
                        h1,
                        v,
                        kx as int + 1,
                    ) by {
                        if h1 == trace@.len() {
                            assert(trace_depth(trace@, h1) == 1);
                        } else if h1 < tr0.len() {
                            assert(trace_depth(trace@, h1) == trace_depth(tr0, h1));
                            assert(trace_depth(tr0, h1) <= trace_depth(tr0, head0) + 1);
                        } else {
                            assert(trace@[h1].parent == Some(cur_idx));
                            assert(trace_depth(trace@, h1) == d0 + 1);
                        }
                        if !visited@[v] {
                            assert(trace_depth(trace@, h1) <= d0 + 1);
                            if kx + 1 < d0 {
                                assert(vis0[v] || queued_within(tr0, head0, v, kx as int + 1));
                                let i = choose|i: int|
                                    head0 <= i < tr0.len() && (#[trigger] tr0[i]).node as int == v
                                        && trace_depth(tr0, i) <= kx as int + 1;
                                if i == head0 {
                                    assert(visited@[v]);
                                } else {
                                    assert(trace@[i].node as int == v);
                                    assert(queued_within(trace@, h1, v, kx as int + 1));
                                }
                            } else {
                                assert(kx + 1 == d0);
                                if v == s as int {
                                    assert(visited@[v]);
                                } else {
                                    assert(kx > 0);
                                    let u = choose|u: int|
                                        reach_within(adj, s as int, u, (kx - 1) as nat)
                                            && #[trigger] has_edge(adj, u, v);
                                    let was_visited = vis0[u] || u == u0;
                                    if !was_visited {
                                        assert(vis0[u] || queued_within(
                                            tr0,
                                            head0,
                                            u,
                                            kx as int,
                                        ));
                                        let i = choose|i: int|
                                            head0 <= i < tr0.len() && (#[trigger] tr0[i]).node
                                                as int == u && trace_depth(tr0, i) <= kx as int;
                                        assert(trace_depth(tr0, head0) <= trace_depth(tr0, i));
                                        assert(false);
                                    }
                                    assert(visited@[u]);
                                    assert(best[u] <= kx);
                                    let kk = choose|kk: int|
                                        0 <= kk < adj[u].len() && (#[trigger] adj[u][kk]).address.index()
                                            == v;
                                    assert(visited@[v] || queued_within(
                                        trace@,
                                        h1,
                                        v,
                                        best[u] + 1,
                                    ));
                                    if !visited@[v] {
                                        let i = choose|i: int|
                                            h1 <= i < trace@.len() && (#[trigger] trace@[i]).node
                                                as int == v && trace_depth(trace@, i) <= best[u]
                                                + 1;
                                        assert(trace_depth(trace@, i) <= kx as int + 1);
                                        assert(queued_within(trace@, h1, v, kx as int + 1));
                                    }
                                }
                            }
                        }
                    }
                }
            }
        }
        proof {
            assert(head > 0);
            assert forall|u: int, v: int|
                0 <= u < adj.len() && visited@[u] && #[trigger] has_edge(adj, u, v) implies 0 <= v
                < adj.len() && visited@[v] by {
                let k = choose|k: int|
                    0 <= k < adj[u].len() && (#[trigger] adj[u][k]).address.index() == v;
                assert(visited@[adj[u][k].address.index()] || queued_within(
                    trace@,
                    head as int,
                    v,
                    best[u] + 1,
                ));
                assert(adj[u][k].address.local_within(adj.len() as int));
            }
            lemma_closed_unreachable(adj, visited@, s as int, t as int);
            assert(bfs_search(adj, trace@, visited@, head as int, t as int) == None::<
                Seq<TraceStep>,
            >);
            assert(follows_steps(
                adj,
                Seq::<TraceStep>::empty(),
                Seq::<NodePathLink<R>>::empty(),
            ));
        }
        Vec::new()
    }
}

impl Default for BreadthFirstSearch {
    /// The solver is stateless; the default value is the only value.
    fn default() -> (r: Self) {
        BreadthFirstSearch
    }
}

} // verus!

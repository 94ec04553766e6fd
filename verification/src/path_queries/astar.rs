//! An A* search solver.

use vstd::prelude::*;
use crate::embedded_property_graph::EmbeddedPropertyGraph;
use crate::node_address::NodeAddress;
use crate::node_relation::NodePathLink;
use crate::path_queries::{
    adjacency_wf, lemma_path_ok_reachable, path_ok, reachable, reconstruct_path,
    trace_step_ok, trace_wf, AdmissibleHeuristic, PathCost, TraceStep,
};

verus! {

/// The f-score weight of one open-set slot: an absent entry weighs as much
/// as an impassable one.
pub open spec fn score_weight(o: Option<u64>) -> nat {
    match o {
        Option::None => u64::MAX as nat,
        Option::Some(v) => v as nat,
    }
}

/// The total weight of a score table; lowering any entry lowers it.
pub open spec fn score_sum(s: Seq<Option<u64>>) -> nat
    decreases s.len(),
{
    if s.len() == 0 {
        0
    } else {
        score_sum(s.drop_last()) + score_weight(s.last())
    }
}

/// The number of present entries in a score table.
pub open spec fn score_count(s: Seq<Option<u64>>) -> nat
    decreases s.len(),
{
    if s.len() == 0 {
        0
    } else {
        score_count(s.drop_last()) + if s.last() is Some {
            1nat
        } else {
            0nat
        }
    }
}

/// Overwriting one slot moves the total weight by the difference of the
/// two weights.
pub proof fn lemma_score_sum_update(s: Seq<Option<u64>>, i: int, x: Option<u64>)
    requires
        0 <= i < s.len(),
    ensures
        score_sum(s.update(i, x)) + score_weight(s[i]) == score_sum(s) + score_weight(x),
    decreases s.len(),
{
    let s2 = s.update(i, x);
    if i == s.len() - 1 {
        assert(s2.drop_last() =~= s.drop_last());
    } else {
        assert(s2.drop_last() =~= s.drop_last().update(i, x));
        assert(s2.last() == s.last());
        lemma_score_sum_update(s.drop_last(), i, x);
    }
}

/// Clearing one present slot lowers the entry count by one.
pub proof fn lemma_score_count_clear(s: Seq<Option<u64>>, i: int)
    requires
        0 <= i < s.len(),
        s[i] is Some,
    ensures
        score_count(s.update(i, None::<u64>)) + 1 == score_count(s),
    decreases s.len(),
{
    let s2 = s.update(i, None::<u64>);
    if i == s.len() - 1 {
        assert(s2.drop_last() =~= s.drop_last());
    } else {
        assert(s2.drop_last() =~= s.drop_last().update(i, None::<u64>));
        assert(s2.last() == s.last());
        lemma_score_count_clear(s.drop_last(), i);
    }
}

/// The open set of an A* run: for each node row, its current f-score if the
/// node awaits evaluation.
///
/// `insert` overwrites deliberately: a node may be re-entered as better
/// paths to it are found, and only the latest (lowest) f-score counts.
/// `pop` removes and returns the node with the smallest f-score, taking the
/// lowest row index among equals, and reports an empty set with `None`.
#[derive(Debug)]
pub struct OpenSet {
    /// For each node row, the f-score under which it awaits evaluation.
    pub f_scores: Vec<Option<u64>>,
}

impl OpenSet {
    /// An open set over `rows` node rows, all initially absent.
    pub fn new(rows: usize) -> (r: Self)
        ensures
            r.f_scores@.len() == rows as int,
            forall|v: int| 0 <= v < rows as int ==> (#[trigger] r.f_scores@[v]) is None,
    {
        let mut f_scores: Vec<Option<u64>> = Vec::new();
        let mut i: usize = 0;
        while i < rows
            invariant
                i <= rows,
                f_scores@.len() == i as int,
                forall|v: int| 0 <= v < i as int ==> (#[trigger] f_scores@[v]) is None,
            decreases rows - i,
        {
            f_scores.push(None);
            i += 1;
        }
        OpenSet { f_scores }
    }

    /// Inserts a node into the open set, overwriting any existing value.
    pub fn insert(&mut self, address: NodeAddress, f_score: u64)
        requires
            address.local_within(old(self).f_scores@.len() as int),
        ensures
            final(self).f_scores@ == old(self).f_scores@.update(
                address.index(),
                Some(f_score),
            ),
    {
        match address {
            NodeAddress::Local(i) => {
                self.f_scores.set(i, Some(f_score));
            },
        }
    }

    /// Removes and returns the node with the smallest f-score; ties go to
    /// the lowest row index.  Returns `None` only when the set is empty.
    pub fn pop(&mut self) -> (r: Option<NodeAddress>)
        ensures
            r is None ==> final(self).f_scores@ == old(self).f_scores@ && forall|u: int|
                0 <= u < old(self).f_scores@.len() ==> (#[trigger] old(
                    self,
                ).f_scores@[u]) is None,
            r is Some ==> ({
                let v = r->Some_0.index();
                &&& 0 <= v < old(self).f_scores@.len()
                &&& old(self).f_scores@[v] is Some
                &&& final(self).f_scores@ == old(self).f_scores@.update(v, None::<u64>)
                &&& forall|u: int|
                    0 <= u < old(self).f_scores@.len() && (#[trigger] old(
                        self,
                    ).f_scores@[u]) is Some ==> old(self).f_scores@[v]->Some_0 <= old(
                        self,
                    ).f_scores@[u]->Some_0
                &&& forall|u: int|
                    0 <= u < v && (#[trigger] old(self).f_scores@[u]) is Some ==> old(
                        self,
                    ).f_scores@[u]->Some_0 > old(self).f_scores@[v]->Some_0
            }),
    {
        let n = self.f_scores.len();
        let mut best: Option<usize> = None;
        let mut best_score: u64 = 0;
        let mut i: usize = 0;
        while i < n
            invariant
                self.f_scores@ == old(self).f_scores@,
                n as int == self.f_scores@.len(),
                i <= n,
                best is None ==> forall|u: int|
                    0 <= u < i as int ==> (#[trigger] self.f_scores@[u]) is None,
                best is Some ==> ({
                    let b = best->Some_0 as int;
                    &&& 0 <= b < i as int
                    &&& self.f_scores@[b] is Some
                    &&& self.f_scores@[b]->Some_0 == best_score
                    &&& forall|u: int|
                        0 <= u < i as int && (#[trigger] self.f_scores@[u]) is Some
                            ==> self.f_scores@[u]->Some_0 >= best_score
                    &&& forall|u: int|
                        0 <= u < b && (#[trigger] self.f_scores@[u]) is Some
                            ==> self.f_scores@[u]->Some_0 > best_score
                }),
            decreases n - i,
        {
            match self.f_scores[i] {
                Some(score) => {
                    let take = match best {
                        None => true,
                        Some(_) => score < best_score,
                    };
                    if take {
                        best_score = score;
                        best = Some(i);
                    }
                },
                None => {},
            }
            i += 1;
        }
        match best {
            Some(b) => {
                self.f_scores.set(b, None);
                Some(NodeAddress::from_local(b))
            },
            None => None,
        }
    }
}

/// An A* search solver for shortest path queries.
#[derive(Debug)]
pub struct AStarSearch;

impl AStarSearch {
    /// Performs a shortest path query on the specified graph, starting at
    /// the `start` node, attempting to reach the `target` node, using the
    /// given edge-cost function and remaining-cost heuristic.
    ///
    /// Returns a path from `start` to `target`, or an empty vector if no
    /// path was found.  When `start == target` the result is the
    /// single-element path holding the start node and no relation, whatever
    /// the two capabilities answer.  When the heuristic is admissible and
    /// the cost function non-negative the path found is a cheapest one;
    /// that is a contract on the caller's two capabilities, not checked
    /// here.
    pub fn shortest_path<N, R, P, H>(
        &self,
        graph: &EmbeddedPropertyGraph<N, R>,
        start: NodeAddress,
        target: NodeAddress,
        path_cost: &P,
        heuristic: &H,
    ) -> (r: Vec<NodePathLink<R>>) where
        R: Clone,
        P: PathCost<N, R>,
        H: AdmissibleHeuristic<N>,

        requires
            graph.wf(),
            start.local_within(graph.nodes@.len() as int),
            target.local_within(graph.nodes@.len() as int),
        ensures
            r@.len() > 0 ==> path_ok(graph.adjacency(), r@, start.index(), target.index()),
            r@.len() > 0 ==> reachable(graph.adjacency(), start.index(), target.index()),
            start == target ==> r@.len() == 1 && r@[0].address == start && r@[0].relation
                is None,
    {
        let ghost adj = graph.adjacency();
        let n = graph.nodes.len();
        let s = match start {
            NodeAddress::Local(i) => i,
        };
        let t = match target {
            NodeAddress::Local(i) => i,
        };
        let mut open_set = OpenSet::new(n);
        let mut g_scores: Vec<Option<u64>> = Vec::new();
        let mut latest: Vec<Option<usize>> = Vec::new();
        let mut vi: usize = 0;
        while vi < n
            invariant
                vi <= n,
                g_scores@.len() == vi as int,
                latest@.len() == vi as int,
                forall|v: int| 0 <= v < vi as int ==> (#[trigger] g_scores@[v]) is None,
                forall|v: int| 0 <= v < vi as int ==> (#[trigger] latest@[v]) is None,
            decreases n - vi,
        {
            g_scores.push(None);
            latest.push(None);
            vi += 1;
        }
        let mut trace: Vec<TraceStep> = Vec::new();
        trace.push(TraceStep { node: s, parent: None, edge: 0 });
        g_scores.set(s, Some(0));
        latest.set(s, Some(0));
        let start_h = heuristic.heuristic(&graph.nodes[s].data, &graph.nodes[t].data);
        open_set.insert(start, start_h);
        loop
            invariant
                adj == graph.adjacency(),
                adjacency_wf(adj),
                n as int == adj.len(),
                s as int == start.index(),
                t as int == target.index(),
                (s as int) < adj.len(),
                (t as int) < adj.len(),
                g_scores@.len() == n as int,
                latest@.len() == n as int,
                open_set.f_scores@.len() == n as int,
                trace@.len() >= 1,
                trace_wf(adj, trace@, s as int),
                trace@[0] == (TraceStep { node: s, parent: None::<usize>, edge: 0usize }),
                g_scores@[s as int] == Some(0u64),
                latest@[s as int] == Some(0usize),
                forall|v: int|
                    0 <= v < n as int && (#[trigger] latest@[v]) is Some ==> (latest@[v]->Some_0
                        as int) < trace@.len() && trace@[latest@[v]->Some_0 as int].node as int
                        == v,
                forall|v: int|
                    0 <= v < n as int && (#[trigger] open_set.f_scores@[v]) is Some
                        ==> latest@[v] is Some && g_scores@[v] is Some,
                forall|v: int|
                    0 <= v < n as int && (#[trigger] g_scores@[v]) is Some
                        ==> g_scores@[v]->Some_0 < u64::MAX,
                start == target ==> open_set.f_scores@[s as int] is Some,
            ensures
                start != target,
            decreases score_sum(g_scores@), score_count(open_set.f_scores@),
        {
            let ghost g0 = g_scores@;
            let ghost open0 = open_set.f_scores@;
            let popped = open_set.pop();
            let current = match popped {
                Some(a) => a,
                None => {
                    proof {
                        if start == target {
                            assert(open0[s as int] is Some);
                            assert(open0[s as int] is None);
                        }
                    }
                    break ;
                },
            };
            let v = match current {
                NodeAddress::Local(i) => i,
            };
            let ghost open1 = open_set.f_scores@;
            let cur_entry = match latest[v] {
                Some(e) => e,
                None => 0,
            };
            if v == t {
                let r = reconstruct_path(graph, &trace, cur_entry, Ghost(s as int));
                proof {
                    lemma_path_ok_reachable(adj, r@, s as int, t as int);
                    if start == target {
                        assert(cur_entry == 0);
                        assert(trace@[0].parent is None);
                        assert(r@.len() == 1);
                        assert(r@[0].address.index() == s as int);
                        assert(r@[0].address == NodeAddress::Local(s));
                        assert(r@[0].relation is None);
                    }
                }
                return r;
            }
            let current_g = match g_scores[v] {
                Some(g) => g,
                None => 0,
            };
            let edge_count = graph.nodes[v].outgoing.len();
            let ghost mut improved = false;
            let mut k: usize = 0;
            while k < edge_count
                invariant
                    adj == graph.adjacency(),
                    adjacency_wf(adj),
                    n as int == adj.len(),
                    (s as int) < adj.len(),
                    (t as int) < adj.len(),
                    (v as int) < adj.len(),
                    edge_count as int == adj[v as int].len(),
                    k <= edge_count,
                    g_scores@.len() == n as int,
                    latest@.len() == n as int,
                    open_set.f_scores@.len() == n as int,
                    trace@.len() >= 1,
                    trace_wf(adj, trace@, s as int),
                    trace@[0] == (TraceStep { node: s, parent: None::<usize>, edge: 0usize }),
                    g_scores@[s as int] == Some(0u64),
                    latest@[s as int] == Some(0usize),
                    (cur_entry as int) < trace@.len(),
                    trace@[cur_entry as int].node == v,
                    forall|vv: int|
                        0 <= vv < n as int && (#[trigger] latest@[vv]) is Some ==> (
                        latest@[vv]->Some_0 as int) < trace@.len() && trace@[latest@[vv]->Some_0
                            as int].node as int == vv,
                    forall|vv: int|
                        0 <= vv < n as int && (#[trigger] open_set.f_scores@[vv]) is Some
                            ==> latest@[vv] is Some && g_scores@[vv] is Some,
                    forall|vv: int|
                        0 <= vv < n as int && (#[trigger] g_scores@[vv]) is Some
                            ==> g_scores@[vv]->Some_0 < u64::MAX,
                    !improved ==> g_scores@ == g0 && open_set.f_scores@ == open1,
                    improved ==> score_sum(g_scores@) < score_sum(g0),
                    start == target ==> open_set.f_scores@[s as int] is Some,
                decreases edge_count - k,
            {
                let ghost trb = trace@;
                let edge = &graph.nodes[v].outgoing[k];
                let w = match edge.address {
                    NodeAddress::Local(i) => i,
                };
                proof {
                    assert(adj[v as int][k as int].address.index() == w as int);
                    assert((w as int) < adj.len());
                }
                let cost = path_cost.path_cost(
                    &graph.nodes[v].data,
                    &graph.nodes[w].data,
                    &edge.relation,
                );
                let tentative_g = if current_g > u64::MAX - cost {
                    u64::MAX
                } else {
                    current_g + cost
                };
                let neighbor_g = match g_scores[w] {
                    Some(g) => g,
                    None => u64::MAX,
                };
                if tentative_g < neighbor_g {
                    let ghost gb = g_scores@;
                    let step = TraceStep { node: w, parent: Some(cur_entry), edge: k };
                    trace.push(step);
                    latest.set(w, Some(trace.len() - 1));
                    g_scores.set(w, Some(tentative_g));
                    proof {
                        assert(trace@[trace@.len() - 1] == step);
                        assert forall|j: int| 0 <= j < trace@.len() implies #[trigger] trace_step_ok(
                            adj,
                            trace@,
                            s as int,
                            j,
                        ) by {
                            if j < trace@.len() - 1 {
                                assert(trace_step_ok(adj, trb, s as int, j));
                            }
                        }
                        lemma_score_sum_update(gb, w as int, Some(tentative_g));
                        assert(score_weight(gb[w as int]) == neighbor_g as nat);
                        assert(score_sum(g_scores@) < score_sum(gb));
                        if !improved {
                            assert(score_sum(gb) == score_sum(g0));
                        }
                        improved = true;
                    }
                    let neighbor_h = heuristic.heuristic(
                        &graph.nodes[w].data,
                        &graph.nodes[t].data,
                    );
                    let neighbor_f = if tentative_g > u64::MAX - neighbor_h {
                        u64::MAX
                    } else {
                        tentative_g + neighbor_h
                    };
                    open_set.insert(NodeAddress::from_local(w), neighbor_f);
                }
                k += 1;
            }
            proof {
                if !improved {
                    assert(open1 == open0.update(v as int, None::<u64>));
                    lemma_score_count_clear(open0, v as int);
                    assert(score_count(open_set.f_scores@) < score_count(open0));
                }
            }
        }
        Vec::new()
    }
}

impl Default for AStarSearch {
    /// The solver is stateless; the default value is the only value.
    fn default() -> (r: Self) {
        AStarSearch
    }
}

} // verus!

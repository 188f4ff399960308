//! The generalized Dijkstra search engine: a single priority-queue loop,
//! reusable for single-pair queries, all-reachable-nodes exploration,
//! connected-component labeling, and landmark precomputation. An attached
//! heuristic table turns the loop into A*; the returned cost map is proved
//! independent of it.

use crate::ext_cost::ExtendedCost;
use crate::id_map::IdMap;
use crate::paths::{
    connected, dijkstra_post, edge_cost, edge_relaxed, graph_wf, has_edge, has_path_of_cost,
    is_path, lemma_path_extend, lemma_path_trivial, lemma_post_members,
    lemma_post_pairwise_connected, path_cost, relaxed_from, saturation_free, search_is_total,
    AdjacencyMap,
};
use crate::pqueue::{queue_contents, queue_is_empty, queue_new, queue_pop_min, queue_push,
    NodeQueue};
use crate::road_network::RoadNetwork;
use vstd::prelude::*;

verus! {

/// The tentative distance of `n` in `d`, with absent nodes counted as one
/// past the largest finite cost. Summed over the nodes, this is the
/// termination measure of the search loop: every successful relaxation
/// lowers it.
pub open spec fn dist_entry(d: Map<i64, u32>, n: i64) -> int {
    if d.contains_key(n) {
        d[n] as int
    } else {
        0x1_0000_0000
    }
}

pub open spec fn sum_dist(useq: Seq<i64>, d: Map<i64, u32>) -> int
    decreases useq.len(),
{
    if useq.len() == 0 {
        0
    } else {
        dist_entry(d, useq.last()) + sum_dist(useq.drop_last(), d)
    }
}

proof fn lemma_sum_dist_nonneg(useq: Seq<i64>, d: Map<i64, u32>)
    ensures
        sum_dist(useq, d) >= 0,
    decreases useq.len(),
{
    if useq.len() > 0 {
        lemma_sum_dist_nonneg(useq.drop_last(), d);
    }
}

proof fn lemma_sum_dist_le(useq: Seq<i64>, d1: Map<i64, u32>, d2: Map<i64, u32>)
    requires
        forall|m: i64| #[trigger] dist_entry(d2, m) <= dist_entry(d1, m),
    ensures
        sum_dist(useq, d2) <= sum_dist(useq, d1),
    decreases useq.len(),
{
    if useq.len() > 0 {
        lemma_sum_dist_le(useq.drop_last(), d1, d2);
        assert(dist_entry(d2, useq.last()) <= dist_entry(d1, useq.last()));
    }
}

proof fn lemma_sum_dist_decrease(useq: Seq<i64>, d1: Map<i64, u32>, d2: Map<i64, u32>, n: i64)
    requires
        forall|m: i64| #[trigger] dist_entry(d2, m) <= dist_entry(d1, m),
        useq.contains(n),
        dist_entry(d2, n) < dist_entry(d1, n),
    ensures
        sum_dist(useq, d2) < sum_dist(useq, d1),
    decreases useq.len(),
{
    if useq.last() == n {
        lemma_sum_dist_le(useq.drop_last(), d1, d2);
    } else {
        let j = choose|j: int| 0 <= j < useq.len() && useq[j] == n;
        assert(j < useq.len() - 1);
        assert(useq.drop_last()[j] == n);
        assert(useq.drop_last().contains(n));
        lemma_sum_dist_decrease(useq.drop_last(), d1, d2, n);
        assert(dist_entry(d2, useq.last()) <= dist_entry(d1, useq.last()));
    }
}

pub open spec fn opt_table_wf(h: Option<IdMap<u32>>) -> bool {
    match h {
        Some(t) => t.wf(),
        None => true,
    }
}

/// One run of the search loop over `graph` from `source`, to exhaustion of
/// all reachable nodes. The heuristic only reorders the queue; the returned
/// map of finite distances is characterized exactly by `dijkstra_post`, which
/// does not mention it.
pub(crate) fn dijkstra_search(
    graph: &RoadNetwork,
    source: i64,
    heuristic: &Option<IdMap<u32>>,
) -> (dist: IdMap<u32>)
    requires
        graph.wf(),
        source != -1,
        opt_table_wf(*heuristic),
    ensures
        dist.wf(),
        dijkstra_post(graph.view_graph(), source, dist@),
{
    let ghost g: AdjacencyMap = graph.view_graph();
    let ghost uses: Seq<i64> = graph.nodes.seq().push(source);
    let mut pq: NodeQueue = queue_new();
    let mut distances: IdMap<u32> = IdMap::new();
    let mut prev: IdMap<i64> = IdMap::new();
    distances.insert(source, 0);
    queue_push(&mut pq, source, 0);
    proof {
        lemma_path_trivial(g, source);
        assert(is_path(g, seq![source], source, source) && path_cost(g, seq![source]) == 0);
        graph.nodes.lemma_view();
    }
    while !queue_is_empty(&pq)
        invariant
            graph.wf(),
            g == graph.view_graph(),
            uses == graph.nodes.seq().push(source),
            opt_table_wf(*heuristic),
            distances.wf(),
            prev.wf(),
            queue_contents(pq).dom().finite(),
            forall|k: i64| #[trigger]
                queue_contents(pq).contains_key(k) ==> distances@.contains_key(k),
            distances@.contains_key(source) && distances@[source] == 0,
            forall|u: i64| #[trigger]
                distances@.contains_key(u) ==> has_path_of_cost(g, source, u, distances@[u] as int),
            forall|u: i64| #[trigger]
                distances@.contains_key(u) ==> u == source || g.contains_key(u),
            forall|u: i64| #[trigger]
                distances@.contains_key(u) ==> queue_contents(pq).contains_key(u) || relaxed_from(
                    g,
                    distances@,
                    u,
                ),
        decreases sum_dist(uses, distances@), queue_contents(pq).dom().len(),
    {
        proof {
            lemma_sum_dist_nonneg(uses, distances@);
        }
        let ghost head_d = distances@;
        let ghost head_q = queue_contents(pq);
        let ghost sum0 = sum_dist(uses, head_d);
        let popped = queue_pop_min(&mut pq);
        match popped {
            None => {
                proof {
                    assert(false);
                }
            },
            Some(pair) => {
                let u_node = pair.0;
                proof {
                    assert(distances@.contains_key(u_node));
                    assert(queue_contents(pq) == head_q.remove(u_node));
                }
                let ud: u32 = match distances.get(u_node) {
                    Some(d) => *d,
                    None => {
                        proof {
                            assert(false);
                        }
                        0
                    },
                };
                let nbrs_opt = self_edges_get(graph, u_node);
                match nbrs_opt {
                    None => {
                        proof {
                            assert(!g.contains_key(u_node));
                            assert forall|w: i64| #[trigger]
                                distances@.contains_key(w) implies queue_contents(
                                pq,
                            ).contains_key(w) || relaxed_from(g, distances@, w) by {
                                if w == u_node {
                                    assert forall|v: i64| #[trigger]
                                        has_edge(g, u_node, v) implies edge_relaxed(
                                        g,
                                        distances@,
                                        u_node,
                                        v,
                                    ) by {
                                        assert(false);
                                    }
                                }
                            }
                        }
                    },
                    Some(nbrs) => {
                        let n = nbrs.len();
                        let mut j: usize = 0;
                        proof {
                            assert(graph.edges@.contains_key(u_node));
                            assert(nbrs@ == g[u_node]);
                        }
                        while j < n
                            invariant
                                graph.wf(),
                                g == graph.view_graph(),
                                uses == graph.nodes.seq().push(source),
                                opt_table_wf(*heuristic),
                                distances.wf(),
                                prev.wf(),
                                queue_contents(pq).dom().finite(),
                                forall|k: i64| #[trigger]
                                    queue_contents(pq).contains_key(k)
                                        ==> distances@.contains_key(k),
                                distances@.contains_key(source) && distances@[source] == 0,
                                forall|u: i64| #[trigger]
                                    distances@.contains_key(u) ==> has_path_of_cost(
                                        g,
                                        source,
                                        u,
                                        distances@[u] as int,
                                    ),
                                forall|u: i64| #[trigger]
                                    distances@.contains_key(u) ==> u == source || g.contains_key(
                                        u,
                                    ),
                                g.contains_key(u_node),
                                nbrs.wf(),
                                nbrs@ == g[u_node],
                                n == nbrs.key_seq().len(),
                                j <= n,
                                distances@.contains_key(u_node),
                                distances@[u_node] == ud,
                                forall|w: i64| #[trigger]
                                    distances@.contains_key(w) && w != u_node ==> queue_contents(
                                        pq,
                                    ).contains_key(w) || relaxed_from(g, distances@, w),
                                forall|jj: int|
                                    0 <= jj < j ==> edge_relaxed(
                                        g,
                                        distances@,
                                        u_node,
                                        #[trigger] nbrs.key_seq()[jj],
                                    ),
                                (distances@ == head_d && queue_contents(pq) == head_q.remove(
                                    u_node,
                                )) || sum_dist(uses, distances@) < sum0,
                                sum0 == sum_dist(uses, head_d),
                                head_q.dom().finite(),
                                head_q.contains_key(u_node),
                            decreases n - j,
                        {
                            let v = nbrs.key_at(j);
                            let w_cost = *nbrs.val_at(j);
                            proof {
                                assert(nbrs@.contains_key(v));
                                assert(has_edge(g, u_node, v));
                                assert(edge_cost(g, u_node, v) == w_cost);
                                assert(has_edge(g, v, u_node) && v != u_node);
                                assert(g.contains_key(v));
                                assert(graph.nodes@.contains(v));
                                graph.nodes.lemma_view();
                                let jn = choose|jn: int|
                                    0 <= jn < graph.nodes.seq().len() && graph.nodes.seq()[jn]
                                        == v;
                                assert(uses[jn] == v);
                                assert(uses.contains(v));
                            }
                            let alt_e = ExtendedCost::Finite(ud).saturating_add(
                                ExtendedCost::Finite(w_cost),
                            );
                            let dv_opt = distances.get(v);
                            let improves: bool = match (alt_e, dv_opt) {
                                (ExtendedCost::Finite(a), Some(dv)) => a < *dv,
                                (ExtendedCost::Finite(_), None) => true,
                                (ExtendedCost::Infinity, _) => false,
                            };
                            if improves {
                                let a: u32 = match alt_e {
                                    ExtendedCost::Finite(a) => a,
                                    ExtendedCost::Infinity => {
                                        proof {
                                            assert(false);
                                        }
                                        0
                                    },
                                };
                                prev.insert(v, u_node);
                                proof {
                                    assert(a == ud + w_cost);
                                    let pu = choose|p: Seq<i64>|
                                        is_path(g, p, source, u_node) && path_cost(g, p)
                                            == distances@[u_node] as int;
                                    lemma_path_extend(g, pu, source, u_node, v);
                                    assert(is_path(g, pu.push(v), source, v) && path_cost(
                                        g,
                                        pu.push(v),
                                    ) == a as int);
                                    let d2 = distances@.insert(v, a);
                                    assert forall|m: i64| #[trigger]
                                        dist_entry(d2, m) <= dist_entry(distances@, m) by {
                                        if m != v {
                                            assert(d2.contains_key(m) == distances@.contains_key(
                                                m,
                                            ));
                                        }
                                    }
                                    lemma_sum_dist_decrease(uses, distances@, d2, v);
                                }
                                let ghost dprev = distances@;
                                distances.insert(v, a);
                                let qprio: u64 = match heuristic {
                                    None => a as u64,
                                    Some(table) => match table.get(v) {
                                        None => a as u64,
                                        Some(h) => ExtendedCost::Finite(a).saturating_add(
                                            ExtendedCost::Finite(*h),
                                        ).priority(),
                                    },
                                };
                                queue_push(&mut pq, v, qprio);
                                proof {
                                    assert(distances@ == dprev.insert(v, a));
                                    // Entries only improve, so every previously
                                    // relaxed node stays relaxed, and the
                                    // improved node is in the queue.
                                    assert forall|w: i64| #[trigger]
                                        distances@.contains_key(w) && w != u_node implies
                                        queue_contents(pq).contains_key(w) || relaxed_from(
                                        g,
                                        distances@,
                                        w,
                                    ) by {
                                        if w == v {
                                            assert(queue_contents(pq).contains_key(v));
                                        } else {
                                            assert(dprev.contains_key(w));
                                            if relaxed_from(g, dprev, w) {
                                                assert forall|v2: i64| #[trigger]
                                                    has_edge(g, w, v2) implies edge_relaxed(
                                                    g,
                                                    distances@,
                                                    w,
                                                    v2,
                                                ) by {
                                                    assert(edge_relaxed(g, dprev, w, v2));
                                                }
                                            }
                                        }
                                    }
                                    assert forall|jj: int| 0 <= jj < j + 1 implies edge_relaxed(
                                        g,
                                        distances@,
                                        u_node,
                                        #[trigger] nbrs.key_seq()[jj],
                                    ) by {
                                        let v2 = nbrs.key_seq()[jj];
                                        if jj < j {
                                            assert(edge_relaxed(g, dprev, u_node, v2));
                                        } else {
                                            assert(v2 == v);
                                            assert(distances@[v] == a);
                                        }
                                    }
                                }
                            } else {
                                proof {
                                    assert forall|jj: int| 0 <= jj < j + 1 implies edge_relaxed(
                                        g,
                                        distances@,
                                        u_node,
                                        #[trigger] nbrs.key_seq()[jj],
                                    ) by {
                                        if jj == j {
                                            if ud + w_cost <= u32::MAX {
                                                assert(alt_e == ExtendedCost::Finite(
                                                    (ud + w_cost) as u32,
                                                ));
                                                assert(distances@.contains_key(v));
                                                assert(distances@[v] <= ud + w_cost);
                                            }
                                        }
                                    }
                                }
                            }
                            j += 1;
                        }
                        proof {
                            nbrs.lemma_dom();
                            assert forall|v: i64| #[trigger] has_edge(g, u_node, v) implies
                                edge_relaxed(g, distances@, u_node, v) by {
                                assert(nbrs@.contains_key(v));
                                assert(nbrs.key_seq().contains(v));
                                let jj = choose|jj: int|
                                    0 <= jj < nbrs.key_seq().len() && nbrs.key_seq()[jj] == v;
                                assert(edge_relaxed(g, distances@, u_node, nbrs.key_seq()[jj]));
                            }
                            assert(relaxed_from(g, distances@, u_node));
                        }
                    },
                }
                proof {
                    lemma_sum_dist_nonneg(uses, distances@);
                    if distances@ == head_d && queue_contents(pq) == head_q.remove(u_node) {
                        assert(head_q.dom().contains(u_node));
                        assert(queue_contents(pq).dom() =~= head_q.dom().remove(u_node));
                        assert(queue_contents(pq).dom().len() < head_q.dom().len());
                    } else {
                        assert(sum_dist(uses, distances@) < sum0);
                    }
                }
            },
        }
    }
    proof {
        assert forall|u: i64| #[trigger] distances@.contains_key(u) implies relaxed_from(
            g,
            distances@,
            u,
        ) by {
            assert(!queue_contents(pq).dom().contains(u));
        }
    }
    distances
}

/// Any two nodes that a label map puts in the same completed round are
/// connected: each search round labels one connected set.
pub open spec fn marks_connected(g: AdjacencyMap, m: Map<i64, usize>) -> bool {
    forall|a: i64, b: i64|
        #[trigger] m.contains_key(a) && #[trigger] m.contains_key(b) && m[a] == m[b] && m[a] != 0
            ==> connected(g, a, b)
}

/// Every nonzero label class is closed under adjacency: a search round that
/// labels a node labels its neighbors with the same round. This holds of the
/// rounds the engine runs whenever the graph is saturation-free.
pub open spec fn marks_classes_closed(g: AdjacencyMap, m: Map<i64, usize>) -> bool {
    forall|u: i64, v: i64|
        m.contains_key(u) && m[u] != 0 && #[trigger] has_edge(g, u, v) ==> #[trigger] m.contains_key(v)
            && m[v] == m[u]
}

/// `k` occurs among the first `i` entries of `s`.
pub open spec fn in_prefix(s: Seq<i64>, i: int, k: i64) -> bool {
    exists|j: int| 0 <= j < i && s[j] == k
}

/// The search engine: the road graph, the visited-round labels shared across
/// calls, the completed-rounds counter, and an optional heuristic table that
/// turns plain Dijkstra into A*.
pub struct DijkstrasAlgorithm {
    pub graph: RoadNetwork,
    pub visited_node_marks: IdMap<usize>,
    pub number_of_completed_rounds: usize,
    pub heuristic: Option<IdMap<u32>>,
}

impl DijkstrasAlgorithm {
    /// Well-formed engine: the graph is well-formed, every graph node carries
    /// a label, no label exceeds the round counter, and the reserved
    /// identifier -1 is never labeled.
    pub open spec fn wf(self) -> bool {
        &&& self.graph.wf()
        &&& self.visited_node_marks.wf()
        &&& self.graph.nodes@.subset_of(self.visited_node_marks@.dom())
        &&& !self.visited_node_marks@.contains_key(-1i64)
        &&& forall|n: i64| #[trigger]
            self.visited_node_marks@.contains_key(n) ==> self.visited_node_marks@[n]
                <= self.number_of_completed_rounds
        &&& opt_table_wf(self.heuristic)
    }

    /// A fresh engine over `graph`: every node is labeled 0 ("not yet
    /// reached by any search") and no round has completed.
    pub fn new(graph: RoadNetwork) -> (r: DijkstrasAlgorithm)
        requires
            graph.wf(),
        ensures
            r.wf(),
            r.graph == graph,
            r.number_of_completed_rounds == 0,
            r.heuristic is None,
            r.visited_node_marks@.dom() == graph.nodes@,
            forall|n: i64| #[trigger]
                r.visited_node_marks@.contains_key(n) ==> r.visited_node_marks@[n] == 0,
            marks_connected(graph.view_graph(), r.visited_node_marks@),
            marks_classes_closed(graph.view_graph(), r.visited_node_marks@),
    {
        let mut marks: IdMap<usize> = IdMap::new();
        let n = graph.nodes.len();
        for i in 0..n
            invariant
                graph.wf(),
                marks.wf(),
                n == graph.nodes.seq().len(),
                marks.key_seq() == graph.nodes.seq().subrange(0, i as int),
                forall|k: i64| #[trigger] marks@.contains_key(k) ==> marks@[k] == 0usize,
            decreases n - i,
        {
            let node = graph.nodes.at(i);
            proof {
                graph.nodes.lemma_view();
                marks.lemma_dom();
                if marks@.contains_key(node) {
                    let jj = choose|jj: int|
                        0 <= jj < marks.key_seq().len() && marks.key_seq()[jj] == node;
                    assert(graph.nodes.seq()[jj] == node);
                    assert(false);
                }
            }
            marks.insert(node, 0);
            proof {
                assert(marks.key_seq() =~= graph.nodes.seq().subrange(0, i + 1));
            }
        }
        proof {
            assert(marks.key_seq() =~= graph.nodes.seq());
        }
        let r = DijkstrasAlgorithm {
            graph,
            visited_node_marks: marks,
            number_of_completed_rounds: 0,
            heuristic: None,
        };
        proof {
            r.visited_node_marks.lemma_dom();
            r.graph.nodes.lemma_view();
            assert(r.visited_node_marks@.dom() =~= r.graph.nodes@);
            assert(r.graph.nodes@ =~= r.graph.view_graph().dom());
        }
        r
    }

    /// Runs one search round from `source`; target -1 means "no specific
    /// target", and a target in another component simply stays unreached.
    /// Returns the cost to the target and the full map of reached nodes to
    /// their finite costs, and labels every reached node with the new round
    /// number.
    pub fn compute_shortest_path(&mut self, source: i64, target: i64) -> (r: (
        ExtendedCost,
        IdMap<u32>,
    ))
        requires
            old(self).wf(),
            source != -1,
            old(self).number_of_completed_rounds < usize::MAX,
        ensures
            final(self).wf(),
            final(self).graph == old(self).graph,
            final(self).heuristic == old(self).heuristic,
            final(self).number_of_completed_rounds == old(self).number_of_completed_rounds + 1,
            r.1.wf(),
            dijkstra_post(old(self).graph.view_graph(), source, r.1@),
            (r.0 == if r.1@.contains_key(target) {
                ExtendedCost::Finite(r.1@[target])
            } else {
                ExtendedCost::Infinity
            }),
            target == source ==> r.0 == ExtendedCost::Finite(0),
            forall|k: i64| #[trigger] final(self).visited_node_marks@.contains_key(k)
                <==> (old(self).visited_node_marks@.contains_key(k) || r.1@.contains_key(k)),
            forall|k: i64| #[trigger] r.1@.contains_key(k)
                ==> final(self).visited_node_marks@[k] == final(self).number_of_completed_rounds,
            forall|k: i64| old(self).visited_node_marks@.contains_key(k) && !r.1@.contains_key(k)
                ==> final(self).visited_node_marks@[k] == old(self).visited_node_marks@[k],
            marks_connected(old(self).graph.view_graph(), old(self).visited_node_marks@)
                ==> marks_connected(old(self).graph.view_graph(), final(self).visited_node_marks@),
            (saturation_free(old(self).graph.view_graph()) && marks_classes_closed(
                old(self).graph.view_graph(),
                old(self).visited_node_marks@,
            )) ==> marks_classes_closed(
                old(self).graph.view_graph(),
                final(self).visited_node_marks@,
            ),
    {
        let ghost g = self.graph.view_graph();
        let distances = dijkstra_search(&self.graph, source, &self.heuristic);
        proof {
            lemma_post_members(g, source, distances@);
            distances.lemma_dom();
        }
        self.number_of_completed_rounds = self.number_of_completed_rounds + 1;
        let round = self.number_of_completed_rounds;
        let ghost ks = distances.key_seq();
        let n = distances.len();
        let mut i: usize = 0;
        while i < n
            invariant
                i <= n,
                old(self).wf(),
                self.graph == old(self).graph,
                self.heuristic == old(self).heuristic,
                self.number_of_completed_rounds == old(self).number_of_completed_rounds + 1,
                round == self.number_of_completed_rounds,
                g == self.graph.view_graph(),
                source != -1,
                distances.wf(),
                dijkstra_post(g, source, distances@),
                ks == distances.key_seq(),
                n == ks.len(),
                forall|u: i64| #[trigger]
                    distances@.contains_key(u) ==> u == source || g.contains_key(u),
                forall|k: i64| #[trigger] distances@.contains_key(k) <==> ks.contains(k),
                self.visited_node_marks.wf(),
                forall|k: i64| #[trigger] self.visited_node_marks@.contains_key(k)
                    <==> (old(self).visited_node_marks@.contains_key(k) || in_prefix(
                    ks,
                    i as int,
                    k,
                )),
                forall|k: i64| #[trigger]
                    in_prefix(ks, i as int, k) ==> self.visited_node_marks@.contains_key(k)
                        && self.visited_node_marks@[k] == round,
                forall|k: i64|
                    old(self).visited_node_marks@.contains_key(k) && !in_prefix(ks, i as int, k)
                        ==> self.visited_node_marks@[k] == old(self).visited_node_marks@[k],
            decreases n - i,
        {
            let node = distances.key_at(i);
            let ghost m0 = self.visited_node_marks@;
            let ghost iprev = i as int;
            self.visited_node_marks.insert(node, round);
            i = i + 1;
            proof {
                assert(self.visited_node_marks@ == m0.insert(node, round));
                assert forall|k: i64| #[trigger]
                    in_prefix(ks, i as int, k) == (in_prefix(ks, iprev, k) || k == node) by {
                    if in_prefix(ks, i as int, k) {
                        let jj = choose|jj: int| 0 <= jj < i as int && ks[jj] == k;
                        if jj < iprev {
                            assert(in_prefix(ks, iprev, k));
                        } else {
                            assert(ks[iprev] == node);
                        }
                    }
                    if in_prefix(ks, iprev, k) {
                        let jj = choose|jj: int| 0 <= jj < iprev && ks[jj] == k;
                        assert(0 <= jj < i as int && ks[jj] == k);
                    }
                    if k == node {
                        assert(ks[iprev] == k);
                        assert(0 <= iprev < i as int && ks[iprev] == k);
                    }
                }
                assert forall|k: i64| #[trigger] in_prefix(ks, i as int, k) implies
                    self.visited_node_marks@.contains_key(k) && self.visited_node_marks@[k]
                    == round by {
                    if k != node {
                        assert(in_prefix(ks, iprev, k));
                        assert(m0.contains_key(k) && m0[k] == round);
                    }
                }
                assert forall|k: i64|
                    old(self).visited_node_marks@.contains_key(k) && !in_prefix(ks, i as int, k)
                    implies self.visited_node_marks@[k] == old(self).visited_node_marks@[k] by {
                    assert(k != node);
                    assert(!in_prefix(ks, iprev, k));
                }
            }
        }
        proof {
            assert forall|k: i64| #[trigger]
                distances@.contains_key(k) == in_prefix(ks, n as int, k) by {
                if ks.contains(k) {
                    let jj = choose|jj: int| 0 <= jj < ks.len() && ks[jj] == k;
                    assert(in_prefix(ks, n as int, k));
                }
                if in_prefix(ks, n as int, k) {
                    let jj = choose|jj: int| 0 <= jj < n && ks[jj] == k;
                    assert(ks.contains(k));
                }
            }
            assert forall|k: i64| #[trigger]
                self.visited_node_marks@.contains_key(k) implies self.visited_node_marks@[k]
                <= self.number_of_completed_rounds by {
                if !in_prefix(ks, n as int, k) {
                    assert(old(self).visited_node_marks@.contains_key(k));
                    assert(old(self).visited_node_marks@[k]
                        <= old(self).number_of_completed_rounds);
                }
            }
            assert(self.graph.nodes@.subset_of(self.visited_node_marks@.dom()));
            assert(!self.visited_node_marks@.contains_key(-1i64)) by {
                if in_prefix(ks, n as int, -1i64) {
                    assert(distances@.contains_key(-1i64));
                    assert(g.contains_key(-1i64));
                }
            }
            if saturation_free(g) && marks_classes_closed(g, old(self).visited_node_marks@) {
                let m0 = old(self).visited_node_marks@;
                let m1 = self.visited_node_marks@;
                assert(search_is_total(g, distances@));
                assert forall|u: i64, v: i64|
                    m1.contains_key(u) && m1[u] != 0 && #[trigger] has_edge(g, u, v) implies
                    #[trigger] m1.contains_key(v) && m1[v] == m1[u] by {
                    if distances@.contains_key(u) {
                        // the round's own class is closed: the relaxed sum
                        // fits, so the neighbor was settled too
                        assert(relaxed_from(g, distances@, u));
                        assert(edge_relaxed(g, distances@, u, v));
                        assert(distances@[u] + edge_cost(g, u, v) <= u32::MAX);
                        assert(distances@.contains_key(v));
                    } else {
                        // an untouched class stays closed: had the neighbor
                        // been settled, the reverse edge would have settled
                        // this node as well
                        assert(m0.contains_key(u) && m1[u] == m0[u]);
                        assert(m0.contains_key(v) && m0[v] == m0[u]);
                        if distances@.contains_key(v) {
                            assert(has_edge(g, v, u));
                            assert(relaxed_from(g, distances@, v));
                            assert(edge_relaxed(g, distances@, v, u));
                            assert(distances@[v] + edge_cost(g, v, u) <= u32::MAX);
                            assert(distances@.contains_key(u));
                            assert(false);
                        }
                    }
                }
            }
            if marks_connected(g, old(self).visited_node_marks@) {
                let m0 = old(self).visited_node_marks@;
                let m1 = self.visited_node_marks@;
                assert forall|a: i64, b: i64|
                    #[trigger] m1.contains_key(a) && #[trigger] m1.contains_key(b) && m1[a]
                        == m1[b] && m1[a] != 0 implies connected(g, a, b) by {
                    if distances@.contains_key(a) && distances@.contains_key(b) {
                        lemma_post_pairwise_connected(g, source, distances@, a, b);
                    } else if !distances@.contains_key(a) && !distances@.contains_key(b) {
                        assert(m0.contains_key(a) && m0.contains_key(b));
                        assert(m1[a] == m0[a] && m1[b] == m0[b]);
                    } else if distances@.contains_key(a) {
                        assert(m1[a] == self.number_of_completed_rounds);
                        assert(m0.contains_key(b));
                        assert(m1[b] == m0[b]);
                        assert(m0[b] <= old(self).number_of_completed_rounds);
                        assert(false);
                    } else {
                        assert(m1[b] == self.number_of_completed_rounds);
                        assert(m0.contains_key(a));
                        assert(m1[a] == m0[a]);
                        assert(m0[a] <= old(self).number_of_completed_rounds);
                        assert(false);
                    }
                }
            }
        }
        let cost = match distances.get(target) {
            Some(c) => ExtendedCost::Finite(*c),
            None => ExtendedCost::Infinity,
        };
        (cost, distances)
    }

    /// Attaches, replaces or removes the heuristic table that subsequent
    /// searches use to order the queue.
    pub fn change_heuristic(&mut self, new_heuristic: Option<IdMap<u32>>)
        requires
            old(self).wf(),
            opt_table_wf(new_heuristic),
        ensures
            final(self).wf(),
            final(self).heuristic == new_heuristic,
            final(self).graph == old(self).graph,
            final(self).visited_node_marks == old(self).visited_node_marks,
            final(self).number_of_completed_rounds == old(self).number_of_completed_rounds,
    {
        self.heuristic = new_heuristic;
    }
}

/// Looks up the adjacency list of `u` in the graph.
fn self_edges_get<'a>(graph: &'a RoadNetwork, u: i64) -> (r: Option<&'a IdMap<u32>>)
    requires
        graph.wf(),
    ensures
        match r {
            Some(m) => graph.edges@.contains_key(u) && *m == graph.edges@[u],
            None => !graph.edges@.contains_key(u),
        },
{
    graph.edges.get(u)
}

} // verus!

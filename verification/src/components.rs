//! Connected-component discovery and pruning. Repeated searches label every
//! node with the round that first reached it; the dominant round is the one
//! labeling the most nodes, and pruning keeps exactly its nodes.

use crate::id_map::{IdMap, IdSet};
use crate::paths::{
    connected, dijkstra_post, edge_cost, edge_relaxed, graph_wf, has_edge, has_path_of_cost,
    is_path, lemma_closed_along_path, lemma_post_members, lemma_subgraph_path,
    lemma_total_search_reaches, path_cost, relaxation_closed, relaxed_from, saturation_free,
    search_is_total, AdjacencyMap,
};
use crate::road_network::RoadNetwork;
use crate::search::{in_prefix, marks_classes_closed, marks_connected, DijkstrasAlgorithm};
use vstd::prelude::*;

verus! {

/// The nodes labeled with round `r`.
pub open spec fn marked_set(m: Map<i64, usize>, r: usize) -> Set<i64> {
    m.dom().filter(|n: i64| m[n] == r)
}

/// How many nodes are labeled with round `r`.
pub open spec fn mark_count(m: Map<i64, usize>, r: usize) -> nat {
    marked_set(m, r).len()
}

pub open spec fn all_marks_nonzero(m: Map<i64, usize>) -> bool {
    forall|k: i64| #[trigger] m.contains_key(k) ==> m[k] != 0
}

pub open spec fn single_valued(m: Map<i64, usize>, r: usize) -> bool {
    forall|k: i64| #[trigger] m.contains_key(k) ==> m[k] == r
}

/// A finite set with a member is not empty.
proof fn lemma_member_len(s: Set<i64>, k: i64)
    requires
        s.finite(),
        s.contains(k),
    ensures
        s.len() >= 1,
{
    if s.len() == 0 {
        s.lemma_len0_is_empty();
    }
}

/// A labeled node witnesses that its round's count is at least one.
proof fn lemma_member_count(m: Map<i64, usize>, k: i64)
    requires
        m.dom().finite(),
        m.contains_key(k),
    ensures
        marked_set(m, m[k]).finite(),
        mark_count(m, m[k]) >= 1,
{
    m.dom().lemma_len_filter(|n: i64| m[n] == m[k]);
    lemma_member_len(marked_set(m, m[k]), k);
}

/// Counts the nodes labeled with round `r`.
fn count_marks(marks: &IdMap<usize>, r: usize) -> (c: usize)
    requires
        marks.wf(),
    ensures
        c == mark_count(marks@, r),
{
    broadcast use vstd::set::group_set_axioms;

    let ghost ks = marks.key_seq();
    let ghost pset = |i: int| Set::new(
        |k: i64| in_prefix(ks, i, k) && marks@.contains_key(k) && marks@[k] == r,
    );
    let n = marks.len();
    let mut c: usize = 0;
    let mut i: usize = 0;
    proof {
        marks.lemma_dom();
        assert(pset(0int) =~= Set::<i64>::empty());
    }
    while i < n
        invariant
            marks.wf(),
            ks == marks.key_seq(),
            pset == (|i: int| Set::new(
                |k: i64| in_prefix(ks, i, k) && marks@.contains_key(k) && marks@[k] == r,
            )),
            n == ks.len(),
            i <= n,
            c <= i,
            pset(i as int).finite(),
            c == pset(i as int).len(),
        decreases n - i,
    {
        let k = marks.key_at(i);
        let v = *marks.val_at(i);
        let ghost iprev = i as int;
        let ghost s0 = pset(iprev);
        if v == r {
            c = c + 1;
        }
        i = i + 1;
        proof {
            let s1 = pset(i as int);
            assert forall|k2: i64| #[trigger]
                in_prefix(ks, i as int, k2) == (in_prefix(ks, iprev, k2) || k2 == k) by {
                if in_prefix(ks, i as int, k2) {
                    let jj = choose|jj: int| 0 <= jj < i as int && ks[jj] == k2;
                    if jj < iprev {
                        assert(in_prefix(ks, iprev, k2));
                    } else {
                        assert(ks[iprev] == k);
                    }
                }
                if in_prefix(ks, iprev, k2) {
                    let jj = choose|jj: int| 0 <= jj < iprev && ks[jj] == k2;
                    assert(0 <= jj < i as int && ks[jj] == k2);
                }
                if k2 == k {
                    assert(0 <= iprev < i as int && ks[iprev] == k2);
                }
            }
            if v == r {
                assert(!s0.contains(k)) by {
                    marks.lemma_dom();
                    if in_prefix(ks, iprev, k) {
                        let jj = choose|jj: int| 0 <= jj < iprev && ks[jj] == k;
                        assert(ks[jj] == ks[iprev]);
                        assert(false);
                    }
                }
                assert(s1 =~= s0.insert(k));
            } else {
                assert(!s1.contains(k));
                assert(s1 =~= s0);
            }
        }
    }
    proof {
        marks.lemma_dom();
        assert forall|k2: i64| #[trigger]
            in_prefix(ks, n as int, k2) == ks.contains(k2) by {
            if in_prefix(ks, n as int, k2) {
                let jj = choose|jj: int| 0 <= jj < n && ks[jj] == k2;
                assert(ks.contains(k2));
            }
            if ks.contains(k2) {
                let jj = choose|jj: int| 0 <= jj < ks.len() && ks[jj] == k2;
                assert(in_prefix(ks, n as int, k2));
            }
        }
        assert(pset(n as int) =~= marked_set(marks@, r));
    }
    c
}

/// Finds a node not yet reached by any search, if one remains.
fn find_unmarked(marks: &IdMap<usize>) -> (r: Option<i64>)
    requires
        marks.wf(),
    ensures
        match r {
            Some(k) => marks@.contains_key(k) && marks@[k] == 0,
            None => all_marks_nonzero(marks@),
        },
{
    let ghost ks = marks.key_seq();
    let n = marks.len();
    let mut i: usize = 0;
    while i < n
        invariant
            marks.wf(),
            ks == marks.key_seq(),
            n == ks.len(),
            i <= n,
            forall|j: int| 0 <= j < i ==> marks@[#[trigger] ks[j]] != 0,
        decreases n - i,
    {
        let v = *marks.val_at(i);
        if v == 0 {
            let k = marks.key_at(i);
            return Some(k);
        }
        i = i + 1;
    }
    proof {
        marks.lemma_dom();
        assert forall|k: i64| #[trigger] marks@.contains_key(k) implies marks@[k] != 0 by {
            let jj = choose|jj: int| 0 <= jj < ks.len() && ks[jj] == k;
            assert(marks@[ks[jj]] != 0);
        }
    }
    None
}

/// The survivors of a prune: `post`'s labels are the restriction of the
/// labeling `mid` to its dominant round, a round that labels at least one
/// node and no fewer than any other round does.
pub open spec fn pruned_from(
    mid: Map<i64, usize>,
    dominant: usize,
    pre: DijkstrasAlgorithm,
    post: DijkstrasAlgorithm,
) -> bool {
    &&& dominant != 0
    &&& mid.dom() == pre.visited_node_marks@.dom()
    &&& mark_count(mid, dominant) >= 1
    &&& forall|rr: usize|
        rr != 0 ==> #[trigger] mark_count(mid, rr) <= mark_count(mid, dominant)
    &&& post.visited_node_marks@ == mid.restrict(marked_set(mid, dominant))
}

/// What pruning guarantees: the labels are left single-valued and nonzero on
/// a nonempty domain — the most-populous label class of the engine's final
/// labeling — the graph is the old graph restricted to the labeled nodes,
/// and a graph already in that shape is left unchanged.
pub open spec fn reduce_post(pre: DijkstrasAlgorithm, post: DijkstrasAlgorithm) -> bool {
    &&& post.wf()
    &&& post.heuristic == pre.heuristic
    &&& post.number_of_completed_rounds >= pre.number_of_completed_rounds
    &&& post.visited_node_marks@.dom().len() > 0
    &&& exists|rr: usize|
        rr != 0 && #[trigger] single_valued(post.visited_node_marks@, rr)
    &&& exists|mid: Map<i64, usize>, dominant: usize| #[trigger] pruned_from(
        mid,
        dominant,
        pre,
        post,
    )
    &&& post.visited_node_marks@.dom().subset_of(pre.visited_node_marks@.dom())
    &&& post.graph.nodes@ == pre.graph.nodes@.intersect(post.visited_node_marks@.dom())
    &&& forall|u: i64| #[trigger]
        post.graph.view_graph().contains_key(u) <==> (pre.graph.view_graph().contains_key(u)
            && post.visited_node_marks@.contains_key(u))
    &&& forall|u: i64, v: i64| #[trigger]
        has_edge(post.graph.view_graph(), u, v) <==> (has_edge(pre.graph.view_graph(), u, v)
            && post.visited_node_marks@.contains_key(u) && post.visited_node_marks@.contains_key(
            v,
        ))
    &&& forall|u: i64, v: i64| #[trigger]
        has_edge(post.graph.view_graph(), u, v) ==> edge_cost(post.graph.view_graph(), u, v)
            == edge_cost(pre.graph.view_graph(), u, v)
    &&& forall|a: i64, b: i64|
        #[trigger] post.visited_node_marks@.contains_key(a)
            && #[trigger] post.visited_node_marks@.contains_key(b) ==> connected(
            pre.graph.view_graph(),
            a,
            b,
        )
    &&& forall|u: i64, v: i64|
        post.visited_node_marks@.contains_key(u) && #[trigger] has_edge(
            pre.graph.view_graph(),
            u,
            v,
        ) ==> post.visited_node_marks@.contains_key(v)
    &&& marks_connected(post.graph.view_graph(), post.visited_node_marks@)
    &&& marks_classes_closed(post.graph.view_graph(), post.visited_node_marks@)
    &&& saturation_free(post.graph.view_graph())
    &&& mark_count(post.visited_node_marks@, 0) == 0
    &&& ((all_marks_nonzero(pre.visited_node_marks@) && (exists|rr: usize| #[trigger]
        single_valued(pre.visited_node_marks@, rr))) ==> (post.graph.view_graph()
        == pre.graph.view_graph() && post.graph.nodes@ == pre.graph.nodes@
        && post.visited_node_marks@ == pre.visited_node_marks@
        && post.number_of_completed_rounds == pre.number_of_completed_rounds))
}

/// Each nonzero label class is exactly one connected component: with the
/// labels pairwise connected within a class and each class closed under
/// adjacency, a node shares `u`'s label precisely when it is reachable from
/// `u`. The dominant round's class is therefore a maximum-size component.
pub proof fn lemma_class_is_component(g: AdjacencyMap, m: Map<i64, usize>, u: i64, v: i64)
    requires
        graph_wf(g),
        marks_connected(g, m),
        marks_classes_closed(g, m),
        m.contains_key(u),
        m[u] != 0,
    ensures
        (m.contains_key(v) && m[v] == m[u]) <==> connected(g, u, v),
{
    if m.contains_key(v) && m[v] == m[u] {
        assert(connected(g, u, v));
    }
    if connected(g, u, v) {
        let p = choose|p: Seq<i64>| is_path(g, p, u, v);
        let cls = |n: i64| m.contains_key(n) && m[n] == m[u];
        assert forall|x: i64, y: i64| cls(x) && #[trigger] has_edge(g, x, y) implies cls(y) by {
            assert(m.contains_key(y) && m[y] == m[x]);
        }
        lemma_closed_along_path(g, p, u, v, cls);
    }
}

/// After pruning, the remaining subgraph is connected: one search from any
/// surviving node settles every surviving node.
pub proof fn lemma_pruned_graph_fully_searched(
    pre: DijkstrasAlgorithm,
    post: DijkstrasAlgorithm,
    s: i64,
    d: Map<i64, u32>,
)
    requires
        reduce_post(pre, post),
        dijkstra_post(post.graph.view_graph(), s, d),
        post.graph.nodes@.contains(s),
    ensures
        forall|b: i64| #[trigger] post.graph.nodes@.contains(b) ==> d.contains_key(b),
{
    let g = post.graph.view_graph();
    assert(search_is_total(g, d));
    assert forall|b: i64| #[trigger] post.graph.nodes@.contains(b) implies d.contains_key(b) by {
        assert(post.visited_node_marks@.contains_key(s));
        assert(post.visited_node_marks@.contains_key(b));
        assert(connected(g, s, b));
        let p = choose|p: Seq<i64>| is_path(g, p, s, b);
        lemma_total_search_reaches(g, d, p, s, b);
    }
}

/// Pruning is idempotent: once the graph has been reduced to its dominant
/// component, a second reduction changes neither the graph nor the labels
/// nor the round counter.
pub proof fn lemma_prune_idempotent(
    pre: DijkstrasAlgorithm,
    mid: DijkstrasAlgorithm,
    post: DijkstrasAlgorithm,
)
    requires
        reduce_post(pre, mid),
        reduce_post(mid, post),
    ensures
        post.graph.view_graph() == mid.graph.view_graph(),
        post.graph.nodes@ == mid.graph.nodes@,
        post.visited_node_marks@ == mid.visited_node_marks@,
        post.number_of_completed_rounds == mid.number_of_completed_rounds,
{
    let rr = choose|rr: usize| rr != 0 && #[trigger] single_valued(mid.visited_node_marks@, rr);
    assert(all_marks_nonzero(mid.visited_node_marks@));
}

impl DijkstrasAlgorithm {
    /// Searches from unlabeled nodes until all nodes are labeled or one round
    /// has labeled a strict majority, then returns the round that labels the
    /// most nodes (smallest such round on ties).
    pub fn find_largest_connected_component(&mut self) -> (dominant: usize)
        requires
            old(self).wf(),
            old(self).visited_node_marks@.dom().len() > 0,
            old(self).number_of_completed_rounds + mark_count(old(self).visited_node_marks@, 0)
                <= usize::MAX,
            marks_connected(old(self).graph.view_graph(), old(self).visited_node_marks@),
            marks_classes_closed(old(self).graph.view_graph(), old(self).visited_node_marks@),
            saturation_free(old(self).graph.view_graph()),
        ensures
            final(self).wf(),
            final(self).graph == old(self).graph,
            final(self).heuristic == old(self).heuristic,
            final(self).number_of_completed_rounds >= old(self).number_of_completed_rounds,
            final(self).visited_node_marks@.dom() == old(self).visited_node_marks@.dom(),
            marks_connected(old(self).graph.view_graph(), final(self).visited_node_marks@),
            marks_classes_closed(old(self).graph.view_graph(), final(self).visited_node_marks@),
            all_marks_nonzero(final(self).visited_node_marks@) || 2 * mark_count(
                final(self).visited_node_marks@,
                dominant,
            ) > old(self).graph.nodes@.len(),
            dominant != 0,
            mark_count(final(self).visited_node_marks@, dominant) >= 1,
            forall|rr: usize|
                rr != 0 ==> #[trigger] mark_count(final(self).visited_node_marks@, rr)
                    <= mark_count(final(self).visited_node_marks@, dominant),
            forall|rr: usize|
                1 <= rr < dominant ==> #[trigger] mark_count(final(self).visited_node_marks@, rr)
                    < mark_count(final(self).visited_node_marks@, dominant),
            all_marks_nonzero(old(self).visited_node_marks@) ==> *final(self) == *old(self),
    {
        broadcast use vstd::set::group_set_axioms;

        let ghost m_init = old(self).visited_node_marks@;
        loop
            invariant_except_break
                self.wf(),
                self.graph == old(self).graph,
                self.heuristic == old(self).heuristic,
                self.number_of_completed_rounds >= old(self).number_of_completed_rounds,
                self.visited_node_marks@.dom() == m_init.dom(),
                m_init == old(self).visited_node_marks@,
                m_init.dom().len() > 0,
                self.number_of_completed_rounds + mark_count(self.visited_node_marks@, 0)
                    <= usize::MAX,
                forall|k: i64| #[trigger]
                    self.visited_node_marks@.contains_key(k) && self.visited_node_marks@[k] == 0
                        ==> m_init[k] == 0,
                marks_connected(self.graph.view_graph(), self.visited_node_marks@),
                marks_classes_closed(self.graph.view_graph(), self.visited_node_marks@),
                saturation_free(self.graph.view_graph()),
                all_marks_nonzero(m_init) ==> *self == *old(self),
            ensures
                self.wf(),
                self.graph == old(self).graph,
                self.heuristic == old(self).heuristic,
                self.number_of_completed_rounds >= old(self).number_of_completed_rounds,
                self.visited_node_marks@.dom() == m_init.dom(),
                m_init.dom().len() > 0,
                marks_connected(self.graph.view_graph(), self.visited_node_marks@),
                marks_classes_closed(self.graph.view_graph(), self.visited_node_marks@),
                all_marks_nonzero(m_init) ==> *self == *old(self),
                exists|k: i64| #[trigger]
                    self.visited_node_marks@.contains_key(k) && self.visited_node_marks@[k] != 0,
                all_marks_nonzero(self.visited_node_marks@) || (exists|rb: usize|
                    rb != 0 && 2 * #[trigger] mark_count(self.visited_node_marks@, rb) > old(
                        self,
                    ).graph.nodes@.len()),
            decreases mark_count(self.visited_node_marks@, 0),
        {
            let src_opt = find_unmarked(&self.visited_node_marks);
            match src_opt {
                None => {
                    proof {
                        self.visited_node_marks.lemma_dom();
                        if self.visited_node_marks@.dom().len() > 0 {
                            if forall|k: i64|
                                !(#[trigger] self.visited_node_marks@.contains_key(k)
                                    && self.visited_node_marks@[k] != 0) {
                                assert forall|k: i64| true implies !(#[trigger]
                                self.visited_node_marks@.dom().contains(k)) by {
                                    assert(!(self.visited_node_marks@.contains_key(k)
                                        && self.visited_node_marks@[k] != 0));
                                }
                                assert(self.visited_node_marks@.dom() =~= Set::<i64>::empty());
                            }
                        }
                    }
                    break ;
                },
                Some(src) => {
                    let ghost m_before = self.visited_node_marks@;
                    proof {
                        self.visited_node_marks.lemma_dom();
                        lemma_member_count(m_before, src);
                        assert(mark_count(m_before, 0) >= 1);
                    }
                    let result = self.compute_shortest_path(src, -1);
                    proof {
                        let g = self.graph.view_graph();
                        lemma_post_members(g, src, result.1@);
                        assert(self.visited_node_marks@.dom() =~= m_before.dom()) by {
                            assert forall|k: i64| #[trigger]
                                self.visited_node_marks@.contains_key(k) implies
                                m_before.contains_key(k) by {
                                if result.1@.contains_key(k) {
                                    if k == src {
                                        assert(m_before.contains_key(src));
                                    } else {
                                        assert(g.contains_key(k));
                                        assert(self.graph.nodes@.contains(k));
                                        assert(m_before.contains_key(k));
                                    }
                                }
                            }
                        }
                        // The zero-labeled set strictly shrinks: the source
                        // is now labeled with the new round.
                        let z_old = marked_set(m_before, 0);
                        let z_new = marked_set(self.visited_node_marks@, 0);
                        m_before.dom().lemma_len_filter(|n: i64| m_before[n] == 0);
                        assert(result.1@.contains_key(src));
                        assert(self.visited_node_marks@[src] != 0);
                        assert forall|k: i64| #[trigger] z_new.contains(k) implies z_old.contains(
                            k,
                        ) by {
                            assert(self.visited_node_marks@[k] == 0);
                            if result.1@.contains_key(k) {
                                assert(self.visited_node_marks@[k]
                                    == self.number_of_completed_rounds);
                                assert(false);
                            }
                            assert(m_before.contains_key(k) && m_before[k] == 0);
                        }
                        assert(z_new.subset_of(z_old));
                        assert(!z_new.contains(src) && z_old.contains(src));
                        z_new.lemma_subset_not_in_lt(z_old, src);
                        assert(mark_count(self.visited_node_marks@, 0) < mark_count(m_before, 0));
                    }
                    let round = self.number_of_completed_rounds;
                    let cnt = count_marks(&self.visited_node_marks, round);
                    if cnt > self.graph.nodes.len() / 2 {
                        proof {
                            assert(self.visited_node_marks@.contains_key(src)
                                && self.visited_node_marks@[src] != 0);
                            self.graph.nodes.lemma_view();
                            assert(round != 0);
                            assert(2 * mark_count(self.visited_node_marks@, round) > old(
                                self,
                            ).graph.nodes@.len());
                        }
                        break ;
                    }
                },
            }
        }
        let rounds_total = self.number_of_completed_rounds;
        let ghost m_fin = self.visited_node_marks@;
        let mut best_round: usize = 0;
        let mut best_count: usize = 0;
        let mut idx: usize = 0;
        while idx < rounds_total
            invariant
                self.wf(),
                self.graph == old(self).graph,
                self.heuristic == old(self).heuristic,
                self.number_of_completed_rounds >= old(self).number_of_completed_rounds,
                self.visited_node_marks@.dom() == m_init.dom(),
                m_init == old(self).visited_node_marks@,
                m_fin == self.visited_node_marks@,
                marks_connected(self.graph.view_graph(), self.visited_node_marks@),
                marks_classes_closed(self.graph.view_graph(), self.visited_node_marks@),
                all_marks_nonzero(m_init) ==> *self == *old(self),
                exists|k: i64| #[trigger]
                    self.visited_node_marks@.contains_key(k) && self.visited_node_marks@[k] != 0,
                all_marks_nonzero(m_fin) || (exists|rb: usize|
                    rb != 0 && 2 * #[trigger] mark_count(m_fin, rb) > old(
                        self,
                    ).graph.nodes@.len()),
                rounds_total == self.number_of_completed_rounds,
                idx <= rounds_total,
                (best_round == 0 && best_count == 0) || (1 <= best_round <= rounds_total
                    && best_count == mark_count(m_fin, best_round) && best_count >= 1),
                forall|q: usize|
                    1 <= q <= idx ==> #[trigger] mark_count(m_fin, q) <= best_count as nat,
                forall|q: usize|
                    1 <= q < best_round ==> #[trigger] mark_count(m_fin, q) < best_count as nat,
            decreases rounds_total - idx,
        {
            let rr = idx + 1;
            let c = count_marks(&self.visited_node_marks, rr);
            if c > best_count {
                best_count = c;
                best_round = rr;
            }
            idx = idx + 1;
            proof {
                assert forall|q: usize| 1 <= q <= idx implies #[trigger] mark_count(m_fin, q)
                    <= best_count as nat by {
                    if q <= idx - 1 {
                        assert(mark_count(m_fin, q) <= best_count as nat);
                    } else {
                        assert(q == rr);
                    }
                }
            }
        }
        proof {
            self.visited_node_marks.lemma_dom();
            let kw = choose|k: i64| #[trigger]
                self.visited_node_marks@.contains_key(k) && self.visited_node_marks@[k] != 0;
            lemma_member_count(m_fin, kw);
            assert(1 <= m_fin[kw] <= rounds_total);
            assert(mark_count(m_fin, m_fin[kw]) >= 1);
            assert(best_count >= 1);
            assert(best_round != 0 && best_count == mark_count(m_fin, best_round));
            assert forall|rr: usize| rr != 0 implies #[trigger] mark_count(m_fin, rr)
                <= mark_count(m_fin, best_round) by {
                if rr > rounds_total {
                    assert(marked_set(m_fin, rr) =~= Set::<i64>::empty()) by {
                        assert forall|k: i64| true implies !(#[trigger] marked_set(
                            m_fin,
                            rr,
                        ).contains(k)) by {
                            if m_fin.contains_key(k) {
                                assert(m_fin[k] <= rounds_total);
                            }
                        }
                    }
                }
            }
            if !all_marks_nonzero(m_fin) {
                let rb = choose|rb: usize|
                    rb != 0 && 2 * #[trigger] mark_count(m_fin, rb) > old(self).graph.nodes@.len();
                assert(mark_count(m_fin, rb) <= mark_count(m_fin, best_round));
            }
        }
        best_round
    }

    /// Discovers the dominant component, then removes every node whose label
    /// differs from the dominant round, with all its edges, and keeps only
    /// the labels of the surviving nodes.
    pub fn reduce_to_largest_connected_component(&mut self)
        requires
            old(self).wf(),
            old(self).visited_node_marks@.dom().len() > 0,
            old(self).number_of_completed_rounds + mark_count(old(self).visited_node_marks@, 0)
                <= usize::MAX,
            marks_connected(old(self).graph.view_graph(), old(self).visited_node_marks@),
            marks_classes_closed(old(self).graph.view_graph(), old(self).visited_node_marks@),
            saturation_free(old(self).graph.view_graph()),
        ensures
            final(self).wf(),
            reduce_post(*old(self), *final(self)),
    {
        broadcast use vstd::set::group_set_axioms;

        let dominant = self.find_largest_connected_component();
        let ghost m_mid = self.visited_node_marks@;
        let ghost g_mid = self.graph.view_graph();

        // Keep exactly the labels equal to the dominant round.
        let mut new_marks: IdMap<usize> = IdMap::new();
        let ghost ks = self.visited_node_marks.key_seq();
        let n = self.visited_node_marks.len();
        let mut i: usize = 0;
        while i < n
            invariant
                self.visited_node_marks.wf(),
                ks == self.visited_node_marks.key_seq(),
                m_mid == self.visited_node_marks@,
                n == ks.len(),
                i <= n,
                new_marks.wf(),
                forall|k: i64| #[trigger]
                    new_marks@.contains_key(k) <==> (in_prefix(ks, i as int, k)
                        && m_mid.contains_key(k) && m_mid[k] == dominant),
                forall|k: i64| #[trigger]
                    new_marks@.contains_key(k) ==> new_marks@[k] == dominant,
            decreases n - i,
        {
            let k = self.visited_node_marks.key_at(i);
            let v = *self.visited_node_marks.val_at(i);
            let ghost iprev = i as int;
            if v == dominant {
                new_marks.insert(k, v);
            }
            i = i + 1;
            proof {
                assert forall|k2: i64| #[trigger]
                    in_prefix(ks, i as int, k2) == (in_prefix(ks, iprev, k2) || k2 == k) by {
                    if in_prefix(ks, i as int, k2) {
                        let jj = choose|jj: int| 0 <= jj < i as int && ks[jj] == k2;
                        if jj < iprev {
                            assert(in_prefix(ks, iprev, k2));
                        } else {
                            assert(ks[iprev] == k);
                        }
                    }
                    if in_prefix(ks, iprev, k2) {
                        let jj = choose|jj: int| 0 <= jj < iprev && ks[jj] == k2;
                        assert(0 <= jj < i as int && ks[jj] == k2);
                    }
                    if k2 == k {
                        assert(0 <= iprev < i as int && ks[iprev] == k2);
                    }
                }
            }
        }
        proof {
            self.visited_node_marks.lemma_dom();
            assert forall|k: i64| #[trigger]
                new_marks@.contains_key(k) == (m_mid.contains_key(k) && m_mid[k] == dominant) by {
                if in_prefix(ks, n as int, k) {
                    let jj = choose|jj: int| 0 <= jj < n && ks[jj] == k;
                    assert(ks.contains(k));
                }
                if ks.contains(k) {
                    let jj = choose|jj: int| 0 <= jj < ks.len() && ks[jj] == k;
                    assert(in_prefix(ks, n as int, k));
                }
            }
        }

        // Keep exactly the labeled nodes, with their adjacency restricted to
        // labeled neighbors.
        let mut new_nodes: IdSet = IdSet::new();
        let mut new_edges: IdMap<IdMap<u32>> = IdMap::new();
        let ghost ns = self.graph.nodes.seq();
        let nn = self.graph.nodes.len();
        let mut i2: usize = 0;
        while i2 < nn
            invariant
                self.wf(),
                g_mid == self.graph.view_graph(),
                ns == self.graph.nodes.seq(),
                nn == ns.len(),
                i2 <= nn,
                new_marks.wf(),
                forall|k: i64| #[trigger]
                    new_marks@.contains_key(k) == (m_mid.contains_key(k) && m_mid[k] == dominant),
                forall|k: i64| #[trigger]
                    new_marks@.contains_key(k) ==> new_marks@[k] == dominant,
                new_nodes.wf(),
                new_edges.wf(),
                forall|u: i64| #[trigger]
                    new_nodes@.contains(u) <==> (in_prefix(ns, i2 as int, u)
                        && new_marks@.contains_key(u)),
                forall|u: i64| #[trigger]
                    new_edges@.contains_key(u) == new_nodes@.contains(u),
                forall|u: i64| #[trigger] new_edges@.contains_key(u) ==> new_edges@[u].wf(),
                forall|u: i64, v: i64|
                    new_edges@.contains_key(u) ==> (#[trigger] new_edges@[u]@.contains_key(v)
                        <==> (g_mid[u].contains_key(v) && new_marks@.contains_key(v))),
                forall|u: i64, v: i64|
                    new_edges@.contains_key(u) && #[trigger] new_edges@[u]@.contains_key(v)
                        ==> new_edges@[u]@[v] == g_mid[u][v],
            decreases nn - i2,
        {
            let u = self.graph.nodes.at(i2);
            let ghost iprev = i2 as int;
            let ghost nodes0 = new_nodes@;
            let ghost edges0 = new_edges@;
            if new_marks.contains_key(u) {
                proof {
                    self.graph.nodes.lemma_view();
                    assert(self.graph.nodes@.contains(u));
                    assert(g_mid.contains_key(u));
                    assert(self.graph.edges@.contains_key(u));
                }
                let nbrs_opt = self.graph.edges.get(u);
                match nbrs_opt {
                    None => {
                        proof {
                            assert(false);
                        }
                    },
                    Some(nbrs) => {
                        let ghost vks = nbrs.key_seq();
                        let mut fm: IdMap<u32> = IdMap::new();
                        let m = nbrs.len();
                        let mut j: usize = 0;
                        proof {
                            assert(nbrs@ == g_mid[u]);
                        }
                        while j < m
                            invariant
                                nbrs.wf(),
                                new_marks.wf(),
                                vks == nbrs.key_seq(),
                                nbrs@ == g_mid[u],
                                m == vks.len(),
                                j <= m,
                                fm.wf(),
                                forall|v: i64| #[trigger]
                                    fm@.contains_key(v) <==> (in_prefix(vks, j as int, v)
                                        && new_marks@.contains_key(v)),
                                forall|v: i64| #[trigger]
                                    fm@.contains_key(v) ==> fm@[v] == g_mid[u][v],
                            decreases m - j,
                        {
                            let v = nbrs.key_at(j);
                            let c = *nbrs.val_at(j);
                            let ghost jprev = j as int;
                            if new_marks.contains_key(v) {
                                fm.insert(v, c);
                            }
                            j = j + 1;
                            proof {
                                assert forall|v2: i64| #[trigger]
                                    in_prefix(vks, j as int, v2) == (in_prefix(vks, jprev, v2)
                                        || v2 == v) by {
                                    if in_prefix(vks, j as int, v2) {
                                        let jj = choose|jj: int|
                                            0 <= jj < j as int && vks[jj] == v2;
                                        if jj < jprev {
                                            assert(in_prefix(vks, jprev, v2));
                                        } else {
                                            assert(vks[jprev] == v);
                                        }
                                    }
                                    if in_prefix(vks, jprev, v2) {
                                        let jj = choose|jj: int| 0 <= jj < jprev && vks[jj] == v2;
                                        assert(0 <= jj < j as int && vks[jj] == v2);
                                    }
                                    if v2 == v {
                                        assert(0 <= jprev < j as int && vks[jprev] == v2);
                                    }
                                }
                            }
                        }
                        proof {
                            nbrs.lemma_dom();
                            assert forall|v: i64| #[trigger]
                                fm@.contains_key(v) == (g_mid[u].contains_key(v)
                                    && new_marks@.contains_key(v)) by {
                                if in_prefix(vks, m as int, v) {
                                    let jj = choose|jj: int| 0 <= jj < m && vks[jj] == v;
                                    assert(vks.contains(v));
                                }
                                if vks.contains(v) {
                                    let jj = choose|jj: int| 0 <= jj < vks.len() && vks[jj] == v;
                                    assert(in_prefix(vks, m as int, v));
                                }
                            }
                        }
                        new_edges.insert(u, fm);
                        new_nodes.insert(u);
                        proof {
                            assert forall|w: i64, v: i64|
                                new_edges@.contains_key(w) implies (#[trigger]
                            new_edges@[w]@.contains_key(v) <==> (g_mid[w].contains_key(v)
                                && new_marks@.contains_key(v))) by {
                                if w != u {
                                    assert(edges0.contains_key(w));
                                    assert(new_edges@[w] == edges0[w]);
                                }
                            }
                        }
                    },
                }
            }
            i2 = i2 + 1;
            proof {
                assert forall|u2: i64| #[trigger]
                    in_prefix(ns, i2 as int, u2) == (in_prefix(ns, iprev, u2) || u2 == u) by {
                    if in_prefix(ns, i2 as int, u2) {
                        let jj = choose|jj: int| 0 <= jj < i2 as int && ns[jj] == u2;
                        if jj < iprev {
                            assert(in_prefix(ns, iprev, u2));
                        } else {
                            assert(ns[iprev] == u);
                        }
                    }
                    if in_prefix(ns, iprev, u2) {
                        let jj = choose|jj: int| 0 <= jj < iprev && ns[jj] == u2;
                        assert(0 <= jj < i2 as int && ns[jj] == u2);
                    }
                    if u2 == u {
                        assert(0 <= iprev < i2 as int && ns[iprev] == u2);
                    }
                }
            }
        }
        proof {
            self.graph.nodes.lemma_view();
            assert forall|u: i64| #[trigger]
                new_nodes@.contains(u) == (self.graph.nodes@.contains(u)
                    && new_marks@.contains_key(u)) by {
                if in_prefix(ns, nn as int, u) {
                    let jj = choose|jj: int| 0 <= jj < nn && ns[jj] == u;
                    assert(ns.contains(u));
                }
                if ns.contains(u) {
                    let jj = choose|jj: int| 0 <= jj < ns.len() && ns[jj] == u;
                    assert(in_prefix(ns, nn as int, u));
                }
            }
        }
        let ghost rounds_mid = self.number_of_completed_rounds;
        self.visited_node_marks = new_marks;
        self.graph = RoadNetwork { nodes: new_nodes, edges: new_edges };
        proof {
            let g_new = self.graph.view_graph();
            let pre = *old(self);
            let post = *self;

            // There is at least one dominantly labeled node.
            assert(mark_count(m_mid, dominant) >= 1);
            let kd = choose|k: i64| #[trigger] marked_set(m_mid, dominant).contains(k);
            assert(marked_set(m_mid, dominant).contains(kd)) by {
                if forall|k: i64| !(#[trigger] marked_set(m_mid, dominant).contains(k)) {
                    assert(marked_set(m_mid, dominant) =~= Set::<i64>::empty());
                }
            }
            assert(new_marks@.contains_key(kd));
            self.visited_node_marks.lemma_dom();
            lemma_member_len(new_marks@.dom(), kd);

            // The new adjacency is the old one restricted to kept nodes.
            assert forall|u: i64| #[trigger]
                g_new.contains_key(u) == (g_mid.contains_key(u) && new_marks@.contains_key(
                    u,
                )) by {
                if g_mid.contains_key(u) && new_marks@.contains_key(u) {
                    assert(pre.graph.nodes@.contains(u));
                    assert(new_nodes@.contains(u));
                }
                if g_new.contains_key(u) {
                    assert(new_edges@.contains_key(u));
                    assert(new_nodes@.contains(u));
                    assert(pre.graph.nodes@.contains(u));
                    assert(g_mid.contains_key(u));
                }
            }
            assert forall|u: i64, v: i64| #[trigger]
                has_edge(g_new, u, v) == (has_edge(g_mid, u, v) && new_marks@.contains_key(u)
                    && new_marks@.contains_key(v)) by {
                if has_edge(g_new, u, v) {
                    assert(new_edges@.contains_key(u));
                    assert(g_new[u] == new_edges@[u]@);
                    assert(new_edges@[u]@.contains_key(v));
                    assert(g_mid[u].contains_key(v) && new_marks@.contains_key(v));
                    assert(g_mid.contains_key(u));
                }
                if has_edge(g_mid, u, v) && new_marks@.contains_key(u) && new_marks@.contains_key(
                    v,
                ) {
                    assert(g_new.contains_key(u));
                    assert(new_edges@[u]@.contains_key(v));
                }
            }
            assert forall|u: i64, v: i64| #[trigger] has_edge(g_new, u, v) implies edge_cost(
                g_new,
                u,
                v,
            ) == edge_cost(g_mid, u, v) by {
                assert(new_edges@[u]@.contains_key(v));
                assert(g_new[u] == new_edges@[u]@);
            }

            // The pruned graph is again a well-formed road graph over exactly
            // the kept nodes.
            assert forall|u: i64, v: i64| #[trigger] has_edge(g_new, u, v) implies u != v
                && has_edge(g_new, v, u) && edge_cost(g_new, v, u) == edge_cost(g_new, u, v) by {
                assert(has_edge(g_mid, u, v));
                assert(has_edge(g_mid, v, u) && edge_cost(g_mid, v, u) == edge_cost(g_mid, u, v));
            }
            assert(!g_new.contains_key(-1i64));
            assert(graph_wf(g_new));
            assert(self.graph.nodes@ =~= g_new.dom());
            assert(self.graph.wf());
            assert(self.graph.nodes@.subset_of(self.visited_node_marks@.dom()));
            assert(!self.visited_node_marks@.contains_key(-1i64));
            assert(self.wf());

            // The contract of pruning.
            assert(self.graph.nodes@ =~= pre.graph.nodes@.intersect(
                self.visited_node_marks@.dom(),
            ));
            assert(self.visited_node_marks@.dom().subset_of(pre.visited_node_marks@.dom())) by {
                assert forall|k: i64| #[trigger]
                    self.visited_node_marks@.dom().contains(k) implies
                    pre.visited_node_marks@.dom().contains(k) by {
                    assert(m_mid.contains_key(k));
                }
            }
            assert(dominant != 0 && single_valued(self.visited_node_marks@, dominant));
            assert(self.visited_node_marks@ =~= m_mid.restrict(marked_set(m_mid, dominant)));
            assert(pruned_from(m_mid, dominant, pre, post));

            // Every pair of surviving nodes was labeled with the dominant
            // round, so the two are connected in the graph before pruning.
            assert forall|a: i64, b: i64|
                #[trigger] self.visited_node_marks@.contains_key(a)
                    && #[trigger] self.visited_node_marks@.contains_key(b) implies connected(
                pre.graph.view_graph(),
                a,
                b,
            ) by {
                assert(m_mid.contains_key(a) && m_mid[a] == dominant);
                assert(m_mid.contains_key(b) && m_mid[b] == dominant);
                assert(marks_connected(g_mid, m_mid));
            }

            // Survivors are closed under the old adjacency: label classes
            // are adjacency-closed, and the survivors form one class.
            assert forall|u: i64, v: i64|
                self.visited_node_marks@.contains_key(u) && #[trigger] has_edge(
                    g_mid,
                    u,
                    v,
                ) implies self.visited_node_marks@.contains_key(v) by {
                assert(m_mid.contains_key(u) && m_mid[u] == dominant);
                assert(m_mid.contains_key(v) && m_mid[v] == dominant);
            }

            // Any two survivors are also connected inside the pruned graph: a
            // connecting walk stays within the dominant class, and all of its
            // edges survive.
            let cls = |n: i64| m_mid.contains_key(n) && m_mid[n] == dominant;
            assert forall|x: i64, y: i64| cls(x) && #[trigger] has_edge(g_mid, x, y) implies cls(
                y,
            ) by {
                assert(m_mid.contains_key(y) && m_mid[y] == m_mid[x]);
            }
            assert forall|a: i64, b: i64|
                #[trigger] self.visited_node_marks@.contains_key(a)
                    && #[trigger] self.visited_node_marks@.contains_key(b) implies connected(
                g_new,
                a,
                b,
            ) by {
                assert(m_mid.contains_key(a) && m_mid[a] == dominant);
                assert(m_mid.contains_key(b) && m_mid[b] == dominant);
                assert(connected(g_mid, a, b));
                let p = choose|p: Seq<i64>| is_path(g_mid, p, a, b);
                lemma_closed_along_path(g_mid, p, a, b, cls);
                assert(is_path(g_new, p, a, b)) by {
                    assert forall|i: int| 0 <= i < p.len() - 1 implies #[trigger] has_edge(
                        g_new,
                        p[i],
                        p[i + 1],
                    ) by {
                        assert(has_edge(g_mid, p[i], p[i + 1]));
                        assert(cls(p[i]) && cls(p[i + 1]));
                        assert(new_marks@.contains_key(p[i]) && new_marks@.contains_key(p[i + 1]));
                    }
                }
            }
            assert(marks_connected(g_new, self.visited_node_marks@));
            assert(marks_classes_closed(g_new, self.visited_node_marks@)) by {
                assert forall|u: i64, v: i64|
                    self.visited_node_marks@.contains_key(u) && self.visited_node_marks@[u] != 0
                        && #[trigger] has_edge(g_new, u, v) implies #[trigger]
                self.visited_node_marks@.contains_key(v) && self.visited_node_marks@[v]
                    == self.visited_node_marks@[u] by {
                    assert(new_marks@.contains_key(v));
                }
            }
            assert(mark_count(self.visited_node_marks@, 0) == 0) by {
                assert(marked_set(self.visited_node_marks@, 0) =~= Set::<i64>::empty()) by {
                    assert forall|k: i64| true implies !(#[trigger] marked_set(
                        self.visited_node_marks@,
                        0,
                    ).contains(k)) by {
                        if self.visited_node_marks@.contains_key(k) {
                            assert(self.visited_node_marks@[k] == dominant);
                        }
                    }
                }
            }

            // The pruned graph is still saturation-free: a search over it is
            // also a valid search over the old graph, whose results never
            // saturate, and the two graphs agree on the surviving costs.
            assert forall|s: i64, d: Map<i64, u32>| #[trigger] dijkstra_post(
                g_new,
                s,
                d,
            ) implies search_is_total(g_new, d) by {
                lemma_post_members(g_new, s, d);
                if g_new.contains_key(s) {
                    assert forall|x: i64, y: i64| #[trigger] has_edge(g_new, x, y) implies
                        has_edge(g_mid, x, y) && edge_cost(g_mid, x, y) == edge_cost(
                        g_new,
                        x,
                        y,
                    ) by {}
                    assert(dijkstra_post(g_mid, s, d)) by {
                        assert forall|u: i64| #[trigger] d.contains_key(u) implies
                            has_path_of_cost(g_mid, s, u, d[u] as int) by {
                            let p = choose|p: Seq<i64>|
                                is_path(g_new, p, s, u) && path_cost(g_new, p) == d[u] as int;
                            lemma_subgraph_path(g_new, g_mid, p, s, u);
                        }
                        assert(relaxation_closed(g_mid, d)) by {
                            assert forall|u: i64| #[trigger] d.contains_key(u) implies
                                relaxed_from(g_mid, d, u) by {
                                assert forall|v: i64| #[trigger] has_edge(g_mid, u, v) implies
                                    edge_relaxed(g_mid, d, u, v) by {
                                    assert(u == s || g_new.contains_key(u));
                                    assert(self.graph.nodes@.contains(u));
                                    assert(self.visited_node_marks@.contains_key(u));
                                    assert(self.visited_node_marks@.contains_key(v));
                                    assert(has_edge(g_new, u, v));
                                    assert(relaxed_from(g_new, d, u));
                                    assert(edge_relaxed(g_new, d, u, v));
                                    assert(edge_cost(g_new, u, v) == edge_cost(g_mid, u, v));
                                }
                            }
                        }
                    }
                    assert(search_is_total(g_mid, d));
                    assert forall|u: i64, v: i64|
                        d.contains_key(u) && #[trigger] has_edge(g_new, u, v) implies d[u]
                        + edge_cost(g_new, u, v) <= u32::MAX by {
                        assert(has_edge(g_mid, u, v));
                        assert(d[u] + edge_cost(g_mid, u, v) <= u32::MAX);
                    }
                } else {
                    // a source outside the pruned graph settles only itself
                    assert forall|u: i64, v: i64|
                        d.contains_key(u) && #[trigger] has_edge(g_new, u, v) implies d[u]
                        + edge_cost(g_new, u, v) <= u32::MAX by {
                        if u == s {
                            assert(g_new.contains_key(s));
                            assert(false);
                        } else {
                            assert(g_new.contains_key(u));
                            let p = choose|p: Seq<i64>|
                                is_path(g_new, p, s, u) && path_cost(g_new, p) == d[u] as int;
                            assert(p.len() >= 2) by {
                                if p.len() == 1 {
                                    assert(u == s);
                                }
                            }
                            let j = 0int;
                            assert(has_edge(g_new, p[j], p[j + 1]));
                            assert(p[j] == s);
                            assert(g_new.contains_key(s));
                            assert(false);
                        }
                    }
                }
            }
            assert(saturation_free(g_new));

            // A graph already pruned is left unchanged.
            if all_marks_nonzero(pre.visited_node_marks@) && (exists|rr: usize| #[trigger]
            single_valued(pre.visited_node_marks@, rr)) {
                let rr = choose|rr: usize| #[trigger] single_valued(pre.visited_node_marks@, rr);
                assert(m_mid == pre.visited_node_marks@);
                assert(g_mid == pre.graph.view_graph());
                assert(m_mid[kd] == rr && m_mid[kd] == dominant);
                assert(self.visited_node_marks@ =~= pre.visited_node_marks@);
                assert forall|u: i64| #[trigger]
                    g_new.contains_key(u) == g_mid.contains_key(u) by {
                    if g_mid.contains_key(u) {
                        assert(pre.graph.nodes@.contains(u));
                        assert(pre.visited_node_marks@.contains_key(u));
                        assert(new_marks@.contains_key(u));
                    }
                }
                assert forall|u: i64| #[trigger] g_new.contains_key(u) implies g_new[u] =~= g_mid[u] by {
                    assert forall|v: i64| #[trigger]
                        g_mid[u].contains_key(v) implies new_marks@.contains_key(v) by {
                        assert(has_edge(g_mid, u, v));
                        assert(has_edge(g_mid, v, u));
                        assert(g_mid.contains_key(v));
                        assert(pre.graph.nodes@.contains(v));
                        assert(pre.visited_node_marks@.contains_key(v));
                    }
                    assert forall|v: i64| #[trigger]
                        g_new[u].contains_key(v) implies g_mid[u].contains_key(v) by {
                        assert(new_edges@[u]@.contains_key(v));
                    }
                    assert forall|v: i64| #[trigger]
                        g_new[u].contains_key(v) implies g_new[u][v] == g_mid[u][v] by {
                        assert(has_edge(g_new, u, v));
                    }
                }
                assert(g_new =~~= g_mid);
                assert(self.graph.nodes@ =~= pre.graph.nodes@);
                assert(self.number_of_completed_rounds == pre.number_of_completed_rounds);
            }
            assert(reduce_post(pre, post));
        }
    }
}

} // verus!

//! Landmark precomputation and the ALT heuristic: one-to-all distance tables
//! from a chosen set of landmarks, and the per-target heuristic derived from
//! them by the triangle inequality, proved admissible and consistent.

use crate::id_map::IdMap;
use crate::paths::{
    dijkstra_post, edge_cost, edge_relaxed, graph_wf, has_edge, is_path, lemma_path_cost_nonneg,
    lemma_path_reverse, lemma_relax_along_path, path_cost, relaxed_from, AdjacencyMap,
};
use crate::road_network::RoadNetwork;
use crate::search::{dijkstra_search, in_prefix};
use vstd::prelude::*;

verus! {

/// What one landmark row contributes to the heuristic for node `u` and
/// target `t`: the absolute difference of the tabulated distances when both
/// are known, and 0 otherwise.
pub open spec fn landmark_term(row: Map<i64, u32>, u: i64, t: i64) -> u32 {
    if row.contains_key(u) && row.contains_key(t) {
        if row[u] >= row[t] {
            (row[u] - row[t]) as u32
        } else {
            (row[t] - row[u]) as u32
        }
    } else {
        0
    }
}

/// Every row of `db` is the full search result over `g` from its landmark.
pub open spec fn db_post(g: AdjacencyMap, db: Map<i64, IdMap<u32>>) -> bool {
    forall|l: i64| #[trigger]
        db.contains_key(l) ==> db[l].wf() && dijkstra_post(g, l, db[l]@)
}

/// The heuristic table holds, for every node of `nodes`, the largest
/// landmark term over the rows of `db`, and nothing else.
pub open spec fn heuristic_post(
    db: Map<i64, IdMap<u32>>,
    t: i64,
    nodes: Set<i64>,
    h: Map<i64, u32>,
) -> bool {
    &&& h.dom() == nodes
    &&& forall|u: i64| #[trigger]
        h.contains_key(u) ==> exists|l: i64|
            db.contains_key(l) && #[trigger] landmark_term(db[l]@, u, t) == h[u]
    &&& forall|u: i64, l: i64|
        #[trigger] h.contains_key(u) && #[trigger] db.contains_key(l) ==> landmark_term(
            db[l]@,
            u,
            t,
        ) <= h[u]
}

/// Runs one full search from each of the first `number_of_landmarks` nodes in
/// iteration order (all nodes, if fewer) on a private engine, and stores each
/// full distance table.
pub fn precompute_landmark_distances(graph: &RoadNetwork, number_of_landmarks: usize) -> (db:
    IdMap<IdMap<u32>>)
    requires
        graph.wf(),
    ensures
        db.wf(),
        db_post(graph.view_graph(), db@),
        forall|l: i64| #[trigger]
            db@.contains_key(l) <==> in_prefix(
                graph.nodes.seq(),
                if number_of_landmarks <= graph.nodes.seq().len() {
                    number_of_landmarks as int
                } else {
                    graph.nodes.seq().len() as int
                },
                l,
            ),
{
    let ghost ns = graph.nodes.seq();
    let total = graph.nodes.len();
    let k = if number_of_landmarks < total {
        number_of_landmarks
    } else {
        total
    };
    let mut db: IdMap<IdMap<u32>> = IdMap::new();
    let mut i: usize = 0;
    while i < k
        invariant
            graph.wf(),
            ns == graph.nodes.seq(),
            total == ns.len(),
            k <= total,
            i <= k,
            db.wf(),
            db_post(graph.view_graph(), db@),
            forall|l: i64| #[trigger] db@.contains_key(l) <==> in_prefix(ns, i as int, l),
        decreases k - i,
    {
        let l = graph.nodes.at(i);
        let ghost iprev = i as int;
        proof {
            graph.nodes.lemma_view();
            assert(graph.nodes@.contains(l));
            assert(graph.view_graph().dom().contains(l));
            assert(l != -1) by {
                assert(!graph.view_graph().contains_key(-1i64));
            }
        }
        let no_heuristic: Option<IdMap<u32>> = None;
        let dist = dijkstra_search(graph, l, &no_heuristic);
        db.insert(l, dist);
        i = i + 1;
        proof {
            assert forall|l2: i64| #[trigger]
                in_prefix(ns, i as int, l2) == (in_prefix(ns, iprev, l2) || l2 == l) by {
                if in_prefix(ns, i as int, l2) {
                    let jj = choose|jj: int| 0 <= jj < i as int && ns[jj] == l2;
                    if jj < iprev {
                        assert(in_prefix(ns, iprev, l2));
                    } else {
                        assert(ns[iprev] == l);
                    }
                }
                if in_prefix(ns, iprev, l2) {
                    let jj = choose|jj: int| 0 <= jj < iprev && ns[jj] == l2;
                    assert(0 <= jj < i as int && ns[jj] == l2);
                }
                if l2 == l {
                    assert(0 <= iprev < i as int && ns[iprev] == l2);
                }
            }
        }
    }
    proof {
        let bound: int = if number_of_landmarks <= ns.len() {
            number_of_landmarks as int
        } else {
            ns.len() as int
        };
        assert(k as int == bound);
    }
    db
}

/// Runs one full search from each landmark of an explicitly chosen set on a
/// private engine, and stores each full distance table. The selection policy
/// is the caller's; the reserved identifier -1 cannot be a landmark.
pub fn precompute_landmark_distances_for(graph: &RoadNetwork, landmarks: &Vec<i64>) -> (db: IdMap<
    IdMap<u32>,
>)
    requires
        graph.wf(),
        forall|i: int| 0 <= i < landmarks@.len() ==> landmarks@[i] != -1,
    ensures
        db.wf(),
        db_post(graph.view_graph(), db@),
        forall|l: i64| #[trigger] db@.contains_key(l) <==> landmarks@.contains(l),
{
    let ghost lseq = landmarks@;
    let total = landmarks.len();
    let mut db: IdMap<IdMap<u32>> = IdMap::new();
    let mut i: usize = 0;
    while i < total
        invariant
            graph.wf(),
            lseq == landmarks@,
            total == lseq.len(),
            i <= total,
            forall|j: int| 0 <= j < total ==> lseq[j] != -1,
            db.wf(),
            db_post(graph.view_graph(), db@),
            forall|l: i64| #[trigger] db@.contains_key(l) <==> in_prefix(lseq, i as int, l),
        decreases total - i,
    {
        let l = landmarks[i];
        let ghost iprev = i as int;
        let no_heuristic: Option<IdMap<u32>> = None;
        let dist = dijkstra_search(graph, l, &no_heuristic);
        db.insert(l, dist);
        i = i + 1;
        proof {
            assert forall|l2: i64| #[trigger]
                in_prefix(lseq, i as int, l2) == (in_prefix(lseq, iprev, l2) || l2 == l) by {
                if in_prefix(lseq, i as int, l2) {
                    let jj = choose|jj: int| 0 <= jj < i as int && lseq[jj] == l2;
                    if jj < iprev {
                        assert(in_prefix(lseq, iprev, l2));
                    } else {
                        assert(lseq[iprev] == l);
                    }
                }
                if in_prefix(lseq, iprev, l2) {
                    let jj = choose|jj: int| 0 <= jj < iprev && lseq[jj] == l2;
                    assert(0 <= jj < i as int && lseq[jj] == l2);
                }
                if l2 == l {
                    assert(0 <= iprev < i as int && lseq[iprev] == l2);
                }
            }
        }
    }
    proof {
        assert forall|l: i64| #[trigger] db@.contains_key(l) == lseq.contains(l) by {
            if in_prefix(lseq, total as int, l) {
                let jj = choose|jj: int| 0 <= jj < total && lseq[jj] == l;
                assert(lseq.contains(l));
            }
            if lseq.contains(l) {
                let jj = choose|jj: int| 0 <= jj < lseq.len() && lseq[jj] == l;
                assert(in_prefix(lseq, total as int, l));
            }
        }
    }
    db
}

/// Builds the heuristic table for `target`: for every node of the graph, the
/// largest landmark term over all landmark rows. A landmark that cannot reach
/// the node or the target contributes 0.
pub fn transform_landmark_db_into_heuristic(
    road_network: &RoadNetwork,
    landmark_database: &IdMap<IdMap<u32>>,
    target: i64,
) -> (h: IdMap<u32>)
    requires
        road_network.wf(),
        landmark_database.wf(),
        landmark_database.key_seq().len() > 0,
        forall|l: i64| #[trigger]
            landmark_database@.contains_key(l) ==> landmark_database@[l].wf(),
    ensures
        h.wf(),
        heuristic_post(landmark_database@, target, road_network.nodes@, h@),
{
    let ghost ns = road_network.nodes.seq();
    let ghost lks = landmark_database.key_seq();
    let ghost db = landmark_database@;
    let n = road_network.nodes.len();
    let nl = landmark_database.len();
    let mut h: IdMap<u32> = IdMap::new();
    let mut i: usize = 0;
    while i < n
        invariant
            road_network.wf(),
            landmark_database.wf(),
            ns == road_network.nodes.seq(),
            lks == landmark_database.key_seq(),
            db == landmark_database@,
            forall|l: i64| #[trigger] db.contains_key(l) ==> db[l].wf(),
            n == ns.len(),
            nl == lks.len(),
            nl > 0,
            i <= n,
            h.wf(),
            forall|u: i64| #[trigger] h@.contains_key(u) <==> in_prefix(ns, i as int, u),
            forall|u: i64| #[trigger]
                h@.contains_key(u) ==> exists|l: i64|
                    db.contains_key(l) && #[trigger] landmark_term(db[l]@, u, target) == h@[u],
            forall|u: i64, l: i64|
                #[trigger] h@.contains_key(u) && #[trigger] db.contains_key(l) ==> landmark_term(
                    db[l]@,
                    u,
                    target,
                ) <= h@[u],
        decreases n - i,
    {
        let u = road_network.nodes.at(i);
        let ghost iprev = i as int;
        let mut best: u32 = 0;
        let mut j: usize = 0;
        while j < nl
            invariant
                landmark_database.wf(),
                lks == landmark_database.key_seq(),
                db == landmark_database@,
                forall|l: i64| #[trigger] db.contains_key(l) ==> db[l].wf(),
                nl == lks.len(),
                j <= nl,
                j >= 1 ==> exists|l: i64|
                    db.contains_key(l) && #[trigger] landmark_term(db[l]@, u, target) == best,
                j == 0 ==> best == 0,
                forall|jj: int|
                    0 <= jj < j ==> landmark_term(db[#[trigger] lks[jj]]@, u, target) <= best,
            decreases nl - j,
        {
            let l = landmark_database.key_at(j);
            let row = landmark_database.val_at(j);
            let term: u32 = match (row.get(u), row.get(target)) {
                (Some(du), Some(dt)) => if *du >= *dt {
                    *du - *dt
                } else {
                    *dt - *du
                },
                (Some(_), None) => 0,
                (None, _) => 0,
            };
            proof {
                assert(db.contains_key(l) && db[l] == *row);
                assert(term == landmark_term(db[l]@, u, target));
            }
            if term > best {
                best = term;
            } else {
                proof {
                    if j == 0 {
                        assert(term == 0);
                        assert(landmark_term(db[l]@, u, target) == best);
                    }
                }
            }
            j = j + 1;
        }
        proof {
            landmark_database.lemma_dom();
            assert forall|l: i64| #[trigger] db.contains_key(l) implies landmark_term(
                db[l]@,
                u,
                target,
            ) <= best by {
                assert(lks.contains(l));
                let jj = choose|jj: int| 0 <= jj < lks.len() && lks[jj] == l;
                assert(landmark_term(db[lks[jj]]@, u, target) <= best);
            }
        }
        h.insert(u, best);
        i = i + 1;
        proof {
            assert forall|u2: i64| #[trigger]
                in_prefix(ns, i as int, u2) == (in_prefix(ns, iprev, u2) || u2 == u) by {
                if in_prefix(ns, i as int, u2) {
                    let jj = choose|jj: int| 0 <= jj < i as int && ns[jj] == u2;
                    if jj < iprev {
                        assert(in_prefix(ns, iprev, u2));
                    } else {
                        assert(ns[iprev] == u);
                    }
                }
                if in_prefix(ns, iprev, u2) {
                    let jj = choose|jj: int| 0 <= jj < iprev && ns[jj] == u2;
                    assert(0 <= jj < i as int && ns[jj] == u2);
                }
                if u2 == u {
                    assert(0 <= iprev < i as int && ns[iprev] == u2);
                }
            }
        }
    }
    proof {
        road_network.nodes.lemma_view();
        assert forall|u: i64| #[trigger] h@.contains_key(u) == road_network.nodes@.contains(
            u,
        ) by {
            if in_prefix(ns, n as int, u) {
                let jj = choose|jj: int| 0 <= jj < n && ns[jj] == u;
                assert(ns.contains(u));
            }
            if ns.contains(u) {
                let jj = choose|jj: int| 0 <= jj < ns.len() && ns[jj] == u;
                assert(in_prefix(ns, n as int, u));
            }
        }
        assert(h@.dom() =~= road_network.nodes@);
    }
    h
}

/// Admissibility of the ALT heuristic: along any walk from `u` to the
/// target, the heuristic value of `u` never exceeds the walk's cost, so it
/// never overestimates the true remaining cost.
pub proof fn lemma_heuristic_admissible(
    g: AdjacencyMap,
    db: Map<i64, IdMap<u32>>,
    t: i64,
    nodes: Set<i64>,
    h: Map<i64, u32>,
    u: i64,
    p: Seq<i64>,
)
    requires
        graph_wf(g),
        db_post(g, db),
        heuristic_post(db, t, nodes, h),
        h.contains_key(u),
        is_path(g, p, u, t),
    ensures
        h[u] <= path_cost(g, p),
{
    lemma_path_cost_nonneg(g, p);
    let c = path_cost(g, p);
    let l = choose|l: i64|
        db.contains_key(l) && #[trigger] landmark_term(db[l]@, u, t) == h[u];
    let row = db[l]@;
    assert(dijkstra_post(g, l, row));
    if row.contains_key(u) && row.contains_key(t) {
        // each direction either fits the cost range, giving the relaxation
        // bound along the walk, or already exceeds any tabulated distance
        if row[u] + c <= u32::MAX {
            lemma_relax_along_path(g, row, p, u, t);
        }
        lemma_path_reverse(g, p, u, t);
        if row[t] + c <= u32::MAX {
            lemma_relax_along_path(g, row, p.reverse(), t, u);
        }
    }
}

/// Consistency of the ALT heuristic: across any edge, the heuristic changes
/// by at most the edge cost, so A* never needs to reopen a settled node. It
/// asks only that a landmark row knowing `u` also knows `v`, which holds of
/// every row after pruning to one component.
pub proof fn lemma_heuristic_consistent(
    g: AdjacencyMap,
    db: Map<i64, IdMap<u32>>,
    t: i64,
    nodes: Set<i64>,
    h: Map<i64, u32>,
    u: i64,
    v: i64,
)
    requires
        graph_wf(g),
        db_post(g, db),
        heuristic_post(db, t, nodes, h),
        h.contains_key(u),
        h.contains_key(v),
        has_edge(g, u, v),
        forall|l: i64| #[trigger]
            db.contains_key(l) && db[l]@.contains_key(u) ==> db[l]@.contains_key(v),
    ensures
        h[u] <= h[v] + edge_cost(g, u, v),
{
    let l = choose|l: i64|
        db.contains_key(l) && #[trigger] landmark_term(db[l]@, u, t) == h[u];
    let row = db[l]@;
    assert(dijkstra_post(g, l, row));
    let w = edge_cost(g, u, v);
    if row.contains_key(u) && row.contains_key(t) {
        assert(row.contains_key(v));
        // in each direction, either the relaxed sum fits and bounds the
        // neighbor, or it already exceeds any tabulated distance
        assert(relaxed_from(g, row, u)) by {
            assert(row.contains_key(u));
        }
        assert(edge_relaxed(g, row, u, v));
        assert(row[v] <= row[u] + w);
        assert(has_edge(g, v, u) && edge_cost(g, v, u) == w);
        assert(relaxed_from(g, row, v)) by {
            assert(row.contains_key(v));
        }
        assert(edge_relaxed(g, row, v, u));
        assert(row[u] <= row[v] + w);
        assert(landmark_term(db[l]@, v, t) <= h[v]);
    }
}

} // verus!

//! The mathematical model of the road graph: adjacency maps, walks and their
//! costs, and the exact characterization of the distance maps produced by the
//! search engine, together with its consequences (determinism, heuristic
//! independence, absence of entries for unreachable nodes).

use vstd::prelude::*;

verus! {

/// The abstract adjacency structure of an undirected weighted graph: each
/// node maps to its neighbors, each neighbor to the edge cost in seconds.
pub type AdjacencyMap = Map<i64, Map<i64, u32>>;

pub open spec fn has_edge(g: AdjacencyMap, u: i64, v: i64) -> bool {
    g.contains_key(u) && g[u].contains_key(v)
}

pub open spec fn edge_cost(g: AdjacencyMap, u: i64, v: i64) -> u32 {
    g[u][v]
}

/// A well-formed road graph: no self-loops, edges symmetric with equal costs
/// in both directions (so every mentioned endpoint is itself a key), and the
/// reserved identifier -1 absent.
pub open spec fn graph_wf(g: AdjacencyMap) -> bool {
    &&& forall|u: i64, v: i64|
        #[trigger] has_edge(g, u, v) ==> u != v && has_edge(g, v, u) && edge_cost(g, v, u)
            == edge_cost(g, u, v)
    &&& !g.contains_key(-1i64)
}

/// `p` is a walk from `s` to `t` along edges of `g`.
pub open spec fn is_path(g: AdjacencyMap, p: Seq<i64>, s: i64, t: i64) -> bool {
    &&& p.len() >= 1
    &&& p[0] == s
    &&& p[p.len() - 1] == t
    &&& forall|i: int| 0 <= i < p.len() - 1 ==> #[trigger] has_edge(g, p[i], p[i + 1])
}

/// The total cost of walk `p` in `g`.
pub open spec fn path_cost(g: AdjacencyMap, p: Seq<i64>) -> int
    decreases p.len(),
{
    if p.len() <= 1 {
        0
    } else {
        edge_cost(g, p[0], p[1]) + path_cost(g, p.drop_first())
    }
}

pub open spec fn has_path_of_cost(g: AdjacencyMap, s: i64, t: i64, c: int) -> bool {
    exists|p: Seq<i64>| is_path(g, p, s, t) && path_cost(g, p) == c
}

/// `t` is reachable from `s` in `g`.
pub open spec fn connected(g: AdjacencyMap, s: i64, t: i64) -> bool {
    exists|p: Seq<i64>| is_path(g, p, s, t)
}

/// The edge (u, v) cannot improve `d[v]`, unless the relaxed sum overflows
/// the cost range.
pub open spec fn edge_relaxed(g: AdjacencyMap, d: Map<i64, u32>, u: i64, v: i64) -> bool {
    d[u] + edge_cost(g, u, v) <= u32::MAX ==> d.contains_key(v) && d[v] <= d[u] + edge_cost(
        g,
        u,
        v,
    )
}

/// No edge leaving `u` can improve its endpoint's entry in `d`.
pub open spec fn relaxed_from(g: AdjacencyMap, d: Map<i64, u32>, u: i64) -> bool {
    forall|v: i64| #[trigger] has_edge(g, u, v) ==> edge_relaxed(g, d, u, v)
}

/// `d` is closed under edge relaxation wherever the relaxed sum does not
/// overflow the cost range.
pub open spec fn relaxation_closed(g: AdjacencyMap, d: Map<i64, u32>) -> bool {
    forall|u: i64| #[trigger] d.contains_key(u) ==> relaxed_from(g, d, u)
}

/// The exact characterization of the distance map a search from `s` over `g`
/// returns: the source costs zero, every entry is witnessed by a walk of
/// exactly that cost, and the map is closed under edge relaxation.
pub open spec fn dijkstra_post(g: AdjacencyMap, s: i64, d: Map<i64, u32>) -> bool {
    &&& d.contains_key(s) && d[s] == 0
    &&& forall|u: i64| #[trigger] d.contains_key(u) ==> has_path_of_cost(g, s, u, d[u] as int)
    &&& relaxation_closed(g, d)
}

/// No relaxation of an edge leaving an entry of `d` can overflow the cost
/// range.
pub open spec fn search_is_total(g: AdjacencyMap, d: Map<i64, u32>) -> bool {
    forall|u: i64, v: i64|
        d.contains_key(u) && #[trigger] has_edge(g, u, v) ==> d[u] + edge_cost(g, u, v)
            <= u32::MAX
}

/// The graph's costs are small enough that no search over it ever saturates:
/// every distance map a search can return stays clear of the cost bound by at
/// least one edge, so each search settles a whole component.
pub open spec fn saturation_free(g: AdjacencyMap) -> bool {
    forall|s: i64, d: Map<i64, u32>| #[trigger] dijkstra_post(g, s, d) ==> search_is_total(g, d)
}

pub proof fn lemma_path_cost_nonneg(g: AdjacencyMap, p: Seq<i64>)
    ensures
        path_cost(g, p) >= 0,
    decreases p.len(),
{
    if p.len() > 1 {
        lemma_path_cost_nonneg(g, p.drop_first());
    }
}

/// A walk's cost decomposes at its last edge.
pub proof fn lemma_path_cost_last(g: AdjacencyMap, p: Seq<i64>)
    requires
        p.len() >= 2,
    ensures
        path_cost(g, p) == path_cost(g, p.drop_last()) + edge_cost(
            g,
            p[p.len() - 2],
            p[p.len() - 1],
        ),
    decreases p.len(),
{
    if p.len() == 2 {
        assert(p.drop_first().len() == 1);
        assert(p.drop_last().len() == 1);
        assert(path_cost(g, p.drop_first()) == 0);
        assert(path_cost(g, p.drop_last()) == 0);
    } else {
        let q = p.drop_first();
        let pd = p.drop_last();
        lemma_path_cost_last(g, q);
        assert(q.drop_last() =~= pd.drop_first());
        assert(pd.len() >= 2 && pd[0] == p[0] && pd[1] == p[1]);
        assert(path_cost(g, pd) == edge_cost(g, pd[0], pd[1]) + path_cost(g, pd.drop_first()));
        assert(q[q.len() - 2] == p[p.len() - 2] && q[q.len() - 1] == p[p.len() - 1]);
        assert(path_cost(g, p) == edge_cost(g, p[0], p[1]) + path_cost(g, q));
    }
}

/// Dropping the last node of a walk leaves a walk to the second-to-last node.
pub proof fn lemma_path_prefix(g: AdjacencyMap, p: Seq<i64>, s: i64, t: i64)
    requires
        is_path(g, p, s, t),
        p.len() >= 2,
    ensures
        is_path(g, p.drop_last(), s, p[p.len() - 2]),
{
    let q = p.drop_last();
    assert forall|i: int| 0 <= i < q.len() - 1 implies #[trigger] has_edge(g, q[i], q[i + 1]) by {
        assert(has_edge(g, p[i], p[i + 1]));
    }
}

/// Appending an edge to a walk yields a walk.
pub proof fn lemma_path_extend(g: AdjacencyMap, p: Seq<i64>, s: i64, t: i64, v: i64)
    requires
        is_path(g, p, s, t),
        has_edge(g, t, v),
    ensures
        is_path(g, p.push(v), s, v),
        path_cost(g, p.push(v)) == path_cost(g, p) + edge_cost(g, t, v),
{
    let q = p.push(v);
    assert forall|i: int| 0 <= i < q.len() - 1 implies #[trigger] has_edge(g, q[i], q[i + 1]) by {
        if i < p.len() - 1 {
            assert(has_edge(g, p[i], p[i + 1]));
            assert(q[i] == p[i] && q[i + 1] == p[i + 1]);
        } else {
            assert(q[i] == t && q[i + 1] == v);
        }
    }
    assert(q.drop_last() =~= p);
    lemma_path_cost_last(g, q);
}

/// A node alone is a walk of cost zero from itself to itself.
pub proof fn lemma_path_trivial(g: AdjacencyMap, s: i64)
    ensures
        is_path(g, seq![s], s, s),
        path_cost(g, seq![s]) == 0,
{
}

/// Along any walk, a relaxation-closed map grows by at most the walk's cost.
pub proof fn lemma_relax_along_path(
    g: AdjacencyMap,
    d: Map<i64, u32>,
    p: Seq<i64>,
    a: i64,
    b: i64,
)
    requires
        relaxation_closed(g, d),
        is_path(g, p, a, b),
        d.contains_key(a),
        d[a] + path_cost(g, p) <= u32::MAX,
    ensures
        d.contains_key(b),
        d[b] <= d[a] + path_cost(g, p),
    decreases p.len(),
{
    if p.len() == 1 {
        assert(b == a);
    } else {
        let q = p.drop_last();
        let m = p[p.len() - 2];
        lemma_path_prefix(g, p, a, b);
        lemma_path_cost_last(g, p);
        lemma_path_cost_nonneg(g, q);
        lemma_relax_along_path(g, d, q, a, m);
        let j = p.len() - 2;
        assert(has_edge(g, p[j], p[j + 1]));
        assert(p[j] == m && p[j + 1] == b);
        assert(relaxed_from(g, d, m));
        assert(edge_relaxed(g, d, m, b));
        assert(d[m] + edge_cost(g, m, b) <= u32::MAX);
    }
}

/// A search whose relaxations never saturate settles every node reachable
/// from any node it settles.
pub proof fn lemma_total_search_reaches(
    g: AdjacencyMap,
    d: Map<i64, u32>,
    p: Seq<i64>,
    a: i64,
    b: i64,
)
    requires
        relaxation_closed(g, d),
        search_is_total(g, d),
        is_path(g, p, a, b),
        d.contains_key(a),
    ensures
        d.contains_key(b),
    decreases p.len(),
{
    if p.len() > 1 {
        let j = 0int;
        assert(has_edge(g, p[j], p[j + 1]));
        assert(relaxed_from(g, d, p[0]));
        assert(edge_relaxed(g, d, p[0], p[1]));
        assert(d[p[0]] + edge_cost(g, p[0], p[1]) <= u32::MAX);
        assert(d.contains_key(p[1]));
        let q = p.drop_first();
        assert(is_path(g, q, p[1], b)) by {
            assert forall|i: int| 0 <= i < q.len() - 1 implies #[trigger] has_edge(
                g,
                q[i],
                q[i + 1],
            ) by {
                let j2 = i + 1;
                assert(has_edge(g, p[j2], p[j2 + 1]));
                assert(q[i] == p[j2] && q[i + 1] == p[j2 + 1]);
            }
        }
        lemma_total_search_reaches(g, d, q, p[1], b);
    }
}

/// Any walk from the source bounds the returned distance of its endpoint,
/// provided its cost fits in the cost range.
pub proof fn lemma_path_bound(g: AdjacencyMap, s: i64, d: Map<i64, u32>, p: Seq<i64>, t: i64)
    requires
        dijkstra_post(g, s, d),
        is_path(g, p, s, t),
        path_cost(g, p) <= u32::MAX,
    ensures
        d.contains_key(t),
        d[t] <= path_cost(g, p),
{
    lemma_path_cost_nonneg(g, p);
    lemma_relax_along_path(g, d, p, s, t);
}

/// Two distance maps that both satisfy the search characterization for the
/// same graph and source are equal. Hence a search returns the same cost map
/// every time it is run, whatever heuristic is attached and however the
/// priority queue breaks ties.
pub proof fn lemma_search_deterministic(
    g: AdjacencyMap,
    s: i64,
    d1: Map<i64, u32>,
    d2: Map<i64, u32>,
)
    requires
        dijkstra_post(g, s, d1),
        dijkstra_post(g, s, d2),
    ensures
        d1 == d2,
{
    assert forall|u: i64| #[trigger] d1.contains_key(u) implies d2.contains_key(u) && d2[u]
        <= d1[u] by {
        let p = choose|p: Seq<i64>| is_path(g, p, s, u) && path_cost(g, p) == d1[u] as int;
        lemma_path_bound(g, s, d2, p, u);
    }
    assert forall|u: i64| #[trigger] d2.contains_key(u) implies d1.contains_key(u) && d1[u]
        <= d2[u] by {
        let p = choose|p: Seq<i64>| is_path(g, p, s, u) && path_cost(g, p) == d2[u] as int;
        lemma_path_bound(g, s, d1, p, u);
    }
    assert(d1 =~= d2);
}

/// A search returns no entry for a node that is not reachable from the
/// source, so the cost reported for a target in another component is
/// infinite.
pub proof fn lemma_unreachable_absent(g: AdjacencyMap, s: i64, d: Map<i64, u32>, t: i64)
    requires
        dijkstra_post(g, s, d),
        !connected(g, s, t),
    ensures
        !d.contains_key(t),
{
    if d.contains_key(t) {
        let p = choose|p: Seq<i64>| is_path(g, p, s, t) && path_cost(g, p) == d[t] as int;
        assert(is_path(g, p, s, t));
    }
}

/// A set of nodes that is closed under outgoing edges contains every node of
/// every walk that starts inside it.
pub proof fn lemma_closed_along_path(
    g: AdjacencyMap,
    p: Seq<i64>,
    a: i64,
    b: i64,
    s: spec_fn(i64) -> bool,
)
    requires
        is_path(g, p, a, b),
        s(a),
        forall|u: i64, v: i64| s(u) && #[trigger] has_edge(g, u, v) ==> s(v),
    ensures
        s(b),
        forall|i: int| 0 <= i < p.len() ==> #[trigger] s(p[i]),
    decreases p.len(),
{
    if p.len() == 1 {
        assert(s(p[0]));
    } else {
        let j = 0int;
        assert(has_edge(g, p[j], p[j + 1]));
        assert(s(p[1]));
        let q = p.drop_first();
        assert(is_path(g, q, p[1], b)) by {
            assert forall|i: int| 0 <= i < q.len() - 1 implies #[trigger] has_edge(
                g,
                q[i],
                q[i + 1],
            ) by {
                let j2 = i + 1;
                assert(has_edge(g, p[j2], p[j2 + 1]));
                assert(q[i] == p[j2] && q[i + 1] == p[j2 + 1]);
            }
        }
        lemma_closed_along_path(g, q, p[1], b, s);
        assert forall|i: int| 0 <= i < p.len() implies #[trigger] s(p[i]) by {
            if i >= 1 {
                assert(s(q[i - 1]));
                assert(q[i - 1] == p[i]);
            }
        }
    }
}

/// A walk of a subgraph is a walk of the whole graph, at the same cost.
pub proof fn lemma_subgraph_path(
    g1: AdjacencyMap,
    g2: AdjacencyMap,
    p: Seq<i64>,
    a: i64,
    b: i64,
)
    requires
        is_path(g1, p, a, b),
        forall|u: i64, v: i64| #[trigger]
            has_edge(g1, u, v) ==> has_edge(g2, u, v) && edge_cost(g2, u, v) == edge_cost(
                g1,
                u,
                v,
            ),
    ensures
        is_path(g2, p, a, b),
        path_cost(g2, p) == path_cost(g1, p),
    decreases p.len(),
{
    if p.len() >= 2 {
        let j = 0int;
        assert(has_edge(g1, p[j], p[j + 1]));
        let q = p.drop_first();
        assert(is_path(g1, q, p[1], b)) by {
            assert forall|i: int| 0 <= i < q.len() - 1 implies #[trigger] has_edge(
                g1,
                q[i],
                q[i + 1],
            ) by {
                let j2 = i + 1;
                assert(has_edge(g1, p[j2], p[j2 + 1]));
                assert(q[i] == p[j2] && q[i + 1] == p[j2 + 1]);
            }
        }
        lemma_subgraph_path(g1, g2, q, p[1], b);
        assert forall|i: int| 0 <= i < p.len() - 1 implies #[trigger] has_edge(
            g2,
            p[i],
            p[i + 1],
        ) by {
            if i >= 1 {
                assert(has_edge(g2, q[i - 1], q[i - 1 + 1]));
                assert(q[i - 1] == p[i] && q[i - 1 + 1] == p[i + 1]);
            }
        }
    }
}

/// Two walks that meet in the middle join into one walk.
pub proof fn lemma_path_concat(g: AdjacencyMap, p1: Seq<i64>, p2: Seq<i64>, a: i64, s: i64, b: i64)
    requires
        is_path(g, p1, a, s),
        is_path(g, p2, s, b),
    ensures
        is_path(g, p1 + p2.drop_first(), a, b),
{
    let q = p1 + p2.drop_first();
    let l1 = p1.len();
    let l2 = p2.len();
    assert(q.len() == l1 + l2 - 1);
    assert(q[0] == p1[0]);
    if l2 >= 2 {
        assert(q[q.len() - 1] == p2[l2 - 1]);
    } else {
        assert(q[q.len() - 1] == p1[l1 - 1]);
    }
    assert forall|i: int| 0 <= i < q.len() - 1 implies #[trigger] has_edge(g, q[i], q[i + 1]) by {
        if i < l1 - 1 {
            assert(has_edge(g, p1[i], p1[i + 1]));
            assert(q[i] == p1[i] && q[i + 1] == p1[i + 1]);
        } else if i == l1 - 1 {
            let j = 0int;
            assert(has_edge(g, p2[j], p2[j + 1]));
            assert(q[i] == p1[l1 - 1] && p1[l1 - 1] == s && s == p2[0]);
            assert(q[i + 1] == p2.drop_first()[0]);
        } else {
            let j = i - l1 + 1;
            assert(has_edge(g, p2[j], p2[j + 1]));
            assert(q[i] == p2.drop_first()[i - l1] && p2.drop_first()[i - l1] == p2[j]);
            assert(q[i + 1] == p2.drop_first()[i + 1 - l1] && p2.drop_first()[i + 1 - l1] == p2[j
                + 1]);
        }
    }
}

/// Reachability is transitive.
pub proof fn lemma_connected_trans(g: AdjacencyMap, a: i64, s: i64, b: i64)
    requires
        connected(g, a, s),
        connected(g, s, b),
    ensures
        connected(g, a, b),
{
    let p1 = choose|p: Seq<i64>| is_path(g, p, a, s);
    let p2 = choose|p: Seq<i64>| is_path(g, p, s, b);
    lemma_path_concat(g, p1, p2, a, s, b);
}

/// Any two nodes reached by one search are connected to each other.
pub proof fn lemma_post_pairwise_connected(
    g: AdjacencyMap,
    s: i64,
    d: Map<i64, u32>,
    a: i64,
    b: i64,
)
    requires
        graph_wf(g),
        dijkstra_post(g, s, d),
        d.contains_key(a),
        d.contains_key(b),
    ensures
        connected(g, a, b),
{
    let pa = choose|p: Seq<i64>| is_path(g, p, s, a) && path_cost(g, p) == d[a] as int;
    let pb = choose|p: Seq<i64>| is_path(g, p, s, b) && path_cost(g, p) == d[b] as int;
    lemma_path_reverse(g, pa, s, a);
    assert(connected(g, a, s)) by {
        assert(is_path(g, pa.reverse(), a, s));
    }
    assert(connected(g, s, b)) by {
        assert(is_path(g, pb, s, b));
    }
    lemma_connected_trans(g, a, s, b);
}

/// In a well-formed graph, every entry of a returned distance map is the
/// source itself or a node of the graph.
pub proof fn lemma_post_members(g: AdjacencyMap, s: i64, d: Map<i64, u32>)
    requires
        graph_wf(g),
        dijkstra_post(g, s, d),
    ensures
        forall|u: i64| #[trigger] d.contains_key(u) ==> u == s || g.contains_key(u),
{
    assert forall|u: i64| #[trigger] d.contains_key(u) implies u == s || g.contains_key(u) by {
        let p = choose|p: Seq<i64>| is_path(g, p, s, u) && path_cost(g, p) == d[u] as int;
        if p.len() == 1 {
            assert(u == s);
        } else {
            let j = p.len() - 2;
            assert(has_edge(g, p[j], p[j + 1]));
            assert(has_edge(g, p[j + 1], p[j]));
        }
    }
}

/// In a well-formed graph every walk can be walked backwards at the same
/// cost.
pub proof fn lemma_path_reverse(g: AdjacencyMap, p: Seq<i64>, s: i64, t: i64)
    requires
        graph_wf(g),
        is_path(g, p, s, t),
    ensures
        is_path(g, p.reverse(), t, s),
        path_cost(g, p.reverse()) == path_cost(g, p),
    decreases p.len(),
{
    let r = p.reverse();
    if p.len() == 1 {
        assert(r =~= p);
    } else {
        let q = p.drop_first();
        assert(is_path(g, q, p[1], t)) by {
            assert forall|i: int| 0 <= i < q.len() - 1 implies #[trigger] has_edge(
                g,
                q[i],
                q[i + 1],
            ) by {
                let j = i + 1;
                assert(has_edge(g, p[j], p[j + 1]));
                assert(q[i] == p[j] && q[i + 1] == p[j + 1]);
            }
        }
        lemma_path_reverse(g, q, p[1], t);
        assert(r =~= q.reverse().push(p[0]));
        assert(has_edge(g, p[0], p[1]));
        assert(has_edge(g, p[1], p[0]) && edge_cost(g, p[1], p[0]) == edge_cost(g, p[0], p[1]));
        lemma_path_extend(g, q.reverse(), t, p[1], p[0]);
    }
}

} // verus!

//! The road graph: a set of node identifiers and a symmetric, self-loop-free
//! adjacency structure with integer edge costs in seconds.

use crate::geo::{cost_seconds, spec_cost_seconds};
use crate::id_map::{IdMap, IdSet};
use crate::paths::{edge_cost, graph_wf, has_edge, AdjacencyMap};
use vstd::prelude::*;

verus! {

/// An undirected weighted road graph. `nodes` is exactly the set of adjacency
/// keys; every edge is stored in both directions with the same cost.
pub struct RoadNetwork {
    pub nodes: IdSet,
    pub edges: IdMap<IdMap<u32>>,
}

/// Adds the undirected edge (u, v) with cost `c` to the abstract adjacency
/// structure, overwriting any previous cost between the two nodes.
pub open spec fn add_edge_adj(g: AdjacencyMap, u: i64, v: i64, c: u32) -> AdjacencyMap {
    let gu = if g.contains_key(u) {
        g[u]
    } else {
        Map::<i64, u32>::empty()
    };
    let g1 = g.insert(u, gu.insert(v, c));
    let gv = if g1.contains_key(v) {
        g1[v]
    } else {
        Map::<i64, u32>::empty()
    };
    g1.insert(v, gv.insert(u, c))
}

impl RoadNetwork {
    /// The abstract adjacency structure of the graph.
    pub open spec fn view_graph(self) -> AdjacencyMap {
        Map::new(|u: i64| self.edges@.contains_key(u), |u: i64| self.edges@[u]@)
    }

    /// Well-formed: the backing structures are well-formed, the node set is
    /// exactly the set of adjacency keys, and the adjacency is symmetric,
    /// self-loop free, and avoids the reserved identifier -1.
    pub open spec fn wf(self) -> bool {
        &&& self.nodes.wf()
        &&& self.edges.wf()
        &&& forall|u: i64| #[trigger] self.edges@.contains_key(u) ==> self.edges@[u].wf()
        &&& self.nodes@ == self.view_graph().dom()
        &&& graph_wf(self.view_graph())
    }

    pub fn new() -> (r: RoadNetwork)
        ensures
            r.wf(),
            r.nodes@ == Set::<i64>::empty(),
            r.nodes.seq() == Seq::<i64>::empty(),
            (r.view_graph() == Map::<i64, Map<i64, u32>>::empty()),
    {
        let r = RoadNetwork { nodes: IdSet::new(), edges: IdMap::new() };
        proof {
            assert(r.view_graph() =~= Map::<i64, Map<i64, u32>>::empty());
            assert(r.nodes@ =~= r.view_graph().dom());
        }
        r
    }

    /// Inserts the undirected edge (u, v) with cost `cost`, overwriting the
    /// previous cost if the pair was already connected; both endpoints become
    /// nodes, new ones at the end of the iteration order.
    pub fn add_edge(&mut self, u: i64, v: i64, cost: u32)
        requires
            old(self).wf(),
            u != v,
            u != -1,
            v != -1,
        ensures
            final(self).wf(),
            (final(self).view_graph() == add_edge_adj(old(self).view_graph(), u, v, cost)),
            final(self).nodes@ == old(self).nodes@.insert(u).insert(v),
            final(self).nodes.seq() == if old(self).nodes@.contains(u) {
                if old(self).nodes@.contains(v) {
                    old(self).nodes.seq()
                } else {
                    old(self).nodes.seq().push(v)
                }
            } else {
                if old(self).nodes@.contains(v) {
                    old(self).nodes.seq().push(u)
                } else {
                    old(self).nodes.seq().push(u).push(v)
                }
            },
    {
        let ghost g0 = old(self).view_graph();
        let mut mu: IdMap<u32> = match self.edges.remove(u) {
            Some(m) => m,
            None => IdMap::new(),
        };
        proof {
            assert(mu.wf());
            assert(mu@ == if g0.contains_key(u) {
                g0[u]
            } else {
                Map::<i64, u32>::empty()
            });
        }
        mu.insert(v, cost);
        self.edges.insert(u, mu);
        let mut mv: IdMap<u32> = match self.edges.remove(v) {
            Some(m) => m,
            None => IdMap::new(),
        };
        proof {
            assert(mv.wf());
            assert(mv@ == if g0.contains_key(v) {
                g0[v]
            } else {
                Map::<i64, u32>::empty()
            });
        }
        mv.insert(u, cost);
        self.edges.insert(v, mv);
        self.nodes.insert(u);
        self.nodes.insert(v);
        proof {
            let g1 = self.view_graph();
            let ga = add_edge_adj(g0, u, v, cost);
            assert forall|w: i64| true implies #[trigger] g1.contains_key(w) == ga.contains_key(w)
                && (g1.contains_key(w) ==> g1[w] == ga[w]) by {
                if w == u {
                    assert(g1.contains_key(u) && ga.contains_key(u));
                    assert(g1[u] =~= ga[u]);
                } else if w == v {
                    assert(g1[v] =~= ga[v]);
                } else {
                    if g1.contains_key(w) || ga.contains_key(w) {
                        assert(g1[w] == ga[w]);
                    }
                }
            }
            assert(g1 =~= ga);
            assert(self.nodes@ =~= g1.dom());
            // The new adjacency is again a well-formed undirected graph.
            assert forall|a: i64, b: i64| #[trigger] has_edge(g1, a, b) implies a != b && has_edge(
                g1,
                b,
                a,
            ) && edge_cost(g1, b, a) == edge_cost(g1, a, b) by {
                if a == u && b == v {
                    assert(has_edge(g1, v, u) && g1[v][u] == cost && g1[u][v] == cost);
                } else if a == v && b == u {
                    assert(has_edge(g1, u, v) && g1[v][u] == cost && g1[u][v] == cost);
                } else if a == u {
                    assert(has_edge(g0, u, b));
                    assert(has_edge(g0, b, u) && edge_cost(g0, b, u) == edge_cost(g0, u, b));
                    assert(b != u && b != v);
                    assert(has_edge(g1, b, a) && g1[b][a] == g0[b][a]);
                } else if a == v {
                    assert(has_edge(g0, v, b));
                    assert(has_edge(g0, b, v) && edge_cost(g0, b, v) == edge_cost(g0, v, b));
                    assert(b != u && b != v);
                    assert(has_edge(g1, b, a) && g1[b][a] == g0[b][a]);
                } else {
                    assert(has_edge(g0, a, b));
                    assert(has_edge(g0, b, a) && edge_cost(g0, b, a) == edge_cost(g0, a, b));
                    if b == u {
                        assert(has_edge(g1, u, a) && g1[u][a] == g0[u][a]);
                    } else if b == v {
                        assert(has_edge(g1, v, a) && g1[v][a] == g0[v][a]);
                    } else {
                        assert(has_edge(g1, b, a) && g1[b][a] == g0[b][a]);
                    }
                }
            }
        }
    }
}

/// An OSM node: its identifier and coordinates in decimicro-degrees
/// (1e-7 of a degree).
#[derive(Clone, Copy)]
pub struct OsmNode {
    pub id: i64,
    pub decimicro_lat: i32,
    pub decimicro_lon: i32,
}

/// An OSM way as the graph builder consumes it: its identifier, the value of
/// its `highway` tag if any, and the ordered node references.
pub struct OsmWay {
    pub id: i64,
    pub highway: Option<String>,
    pub node_refs: Vec<i64>,
}

/// A way retained for edge construction: at least two node references and
/// the travel speed derived from its highway class, in whole km/h.
pub struct SimplifiedWay {
    pub id: i64,
    pub highway_speed_kmh: u32,
    pub node_sequence: Vec<i64>,
}

pub open spec fn opt_view(h: Option<String>) -> Option<Seq<char>> {
    match h {
        Some(s) => Some(s@),
        None => None,
    }
}

/// The speed table: the travel speed in km/h for each recognized value of
/// the `highway` tag; any other value, or a missing tag, discards the way.
pub open spec fn spec_speed_kmh(highway: Option<Seq<char>>) -> Option<u32> {
    match highway {
        None => None,
        Some(t) => if t == "motorway"@ || t == "trunk"@ {
            Some(110u32)
        } else if t == "primary"@ {
            Some(70u32)
        } else if t == "secondary"@ {
            Some(60u32)
        } else if t == "tertiary"@ || t == "motorway_link"@ || t == "trunk_link"@ || t
            == "primary_link"@ || t == "secondary_link"@ {
            Some(50u32)
        } else if t == "road"@ || t == "unclassified"@ {
            Some(40u32)
        } else if t == "residential"@ || t == "unsurfaced"@ {
            Some(30u32)
        } else if t == "living_street"@ {
            Some(10u32)
        } else if t == "service"@ {
            Some(5u32)
        } else {
            None
        },
    }
}

fn tag_matches(tag: &String, pat: &str) -> (r: bool)
    ensures
        r == (tag@ == pat@),
{
    *tag == pat.to_owned()
}

/// Maps a way's `highway` tag to its travel speed in km/h, by the speed
/// table; an unknown or missing tag discards the way.
pub fn speed_from_way_kmh(way: &OsmWay) -> (r: Option<u32>)
    ensures
        r == spec_speed_kmh(opt_view(way.highway)),
{
    match &way.highway {
        None => None,
        Some(tag) => {
            if tag_matches(tag, "motorway") || tag_matches(tag, "trunk") {
                Some(110)
            } else if tag_matches(tag, "primary") {
                Some(70)
            } else if tag_matches(tag, "secondary") {
                Some(60)
            } else if tag_matches(tag, "tertiary") || tag_matches(tag, "motorway_link")
                || tag_matches(tag, "trunk_link") || tag_matches(tag, "primary_link")
                || tag_matches(tag, "secondary_link") {
                Some(50)
            } else if tag_matches(tag, "road") || tag_matches(tag, "unclassified") {
                Some(40)
            } else if tag_matches(tag, "residential") || tag_matches(tag, "unsurfaced") {
                Some(30)
            } else if tag_matches(tag, "living_street") {
                Some(10)
            } else if tag_matches(tag, "service") {
                Some(5)
            } else {
                None
            }
        },
    }
}

/// The coordinate table of an OSM node stream: each identifier mapped to its
/// coordinates, the last occurrence winning.
pub open spec fn coord_table(nodes: Seq<OsmNode>) -> Map<i64, (i32, i32)>
    decreases nodes.len(),
{
    if nodes.len() == 0 {
        Map::empty()
    } else {
        coord_table(nodes.drop_last()).insert(
            nodes.last().id,
            (nodes.last().decimicro_lat, nodes.last().decimicro_lon),
        )
    }
}

/// The ways retained for edge construction: those with a recognized highway
/// class and at least two references, in input order.
pub open spec fn simplify_ways(ways: Seq<OsmWay>) -> Seq<SimplifiedWay>
    decreases ways.len(),
{
    if ways.len() == 0 {
        Seq::empty()
    } else {
        let rest = simplify_ways(ways.drop_last());
        let w = ways.last();
        match spec_speed_kmh(opt_view(w.highway)) {
            Some(kmh) => if w.node_refs@.len() >= 2 {
                rest.push(
                    SimplifiedWay {
                        id: w.id,
                        highway_speed_kmh: kmh,
                        node_sequence: w.node_refs,
                    },
                )
            } else {
                rest
            },
            None => rest,
        }
    }
}

/// Every retained way has a positive speed and at least two references.
pub proof fn lemma_simplified_ways_shape(ways: Seq<OsmWay>)
    ensures
        forall|j: int|
            0 <= j < simplify_ways(ways).len() ==> (#[trigger] simplify_ways(
                ways,
            )[j]).highway_speed_kmh >= 1 && simplify_ways(ways)[j].node_sequence@.len() >= 2,
    decreases ways.len(),
{
    if ways.len() > 0 {
        lemma_simplified_ways_shape(ways.drop_last());
        let rest = simplify_ways(ways.drop_last());
        assert forall|j: int|
            0 <= j < simplify_ways(ways).len() implies (#[trigger] simplify_ways(
            ways,
        )[j]).highway_speed_kmh >= 1 && simplify_ways(ways)[j].node_sequence@.len() >= 2 by {
            if j < rest.len() {
                assert(simplify_ways(ways)[j] == rest[j]);
            }
        }
    }
}

/// A consecutive reference pair produces a segment exactly when both
/// endpoints have known coordinates, the pair is not degenerate, and neither
/// side is the reserved identifier.
pub open spec fn pair_retained(coords: Map<i64, (i32, i32)>, a: i64, b: i64) -> bool {
    coords.contains_key(a) && coords.contains_key(b) && a != b && a != -1 && b != -1
}

/// One retained consecutive reference pair of a way: its endpoints with
/// their coordinates, and the way's speed. Its length on the ground is
/// measured outside this crate and handed back to `assemble_graph`.
#[derive(Clone, Copy, Debug, PartialEq, Eq, Structural)]
pub struct Segment {
    pub tail: i64,
    pub head: i64,
    pub tail_lat: i32,
    pub tail_lon: i32,
    pub head_lat: i32,
    pub head_lon: i32,
    pub speed_kmh: u32,
}

pub open spec fn segment_of(coords: Map<i64, (i32, i32)>, kmh: u32, a: i64, b: i64) -> Segment {
    Segment {
        tail: a,
        head: b,
        tail_lat: coords[a].0,
        tail_lon: coords[a].1,
        head_lat: coords[b].0,
        head_lon: coords[b].1,
        speed_kmh: kmh,
    }
}

/// The segments of one way's consecutive reference pairs, from pair `i` on.
pub open spec fn way_segments(
    coords: Map<i64, (i32, i32)>,
    kmh: u32,
    refs: Seq<i64>,
    i: int,
) -> Seq<Segment>
    decreases refs.len() - i,
{
    if i < 0 || i + 1 >= refs.len() {
        Seq::empty()
    } else {
        let rest = way_segments(coords, kmh, refs, i + 1);
        if pair_retained(coords, refs[i], refs[i + 1]) {
            seq![segment_of(coords, kmh, refs[i], refs[i + 1])] + rest
        } else {
            rest
        }
    }
}

/// The segments of all retained ways from index `j` on, in order.
pub open spec fn ways_segments(
    coords: Map<i64, (i32, i32)>,
    ways: Seq<SimplifiedWay>,
    j: int,
) -> Seq<Segment>
    decreases ways.len() - j,
{
    if j < 0 || j >= ways.len() {
        Seq::empty()
    } else {
        way_segments(coords, ways[j].highway_speed_kmh, ways[j].node_sequence@, 0)
            + ways_segments(coords, ways, j + 1)
    }
}

/// The measurable segments of an OSM extract.
pub open spec fn spec_segments(osm_nodes: Seq<OsmNode>, osm_ways: Seq<OsmWay>) -> Seq<Segment> {
    ways_segments(coord_table(osm_nodes), simplify_ways(osm_ways), 0)
}

/// Every segment of one way joins two distinct non-reserved identifiers at
/// the way's speed.
pub proof fn lemma_way_segments_shape(
    coords: Map<i64, (i32, i32)>,
    kmh: u32,
    refs: Seq<i64>,
    i: int,
)
    ensures
        forall|j: int|
            0 <= j < way_segments(coords, kmh, refs, i).len() ==> {
                let s = #[trigger] way_segments(coords, kmh, refs, i)[j];
                s.tail != s.head && s.tail != -1 && s.head != -1 && s.speed_kmh == kmh
            },
    decreases refs.len() - i,
{
    if !(i < 0 || i + 1 >= refs.len()) {
        lemma_way_segments_shape(coords, kmh, refs, i + 1);
        let rest = way_segments(coords, kmh, refs, i + 1);
        assert forall|j: int|
            0 <= j < way_segments(coords, kmh, refs, i).len() implies {
            let s = #[trigger] way_segments(coords, kmh, refs, i)[j];
            s.tail != s.head && s.tail != -1 && s.head != -1 && s.speed_kmh == kmh
        } by {
            if pair_retained(coords, refs[i], refs[i + 1]) {
                if j >= 1 {
                    assert(way_segments(coords, kmh, refs, i)[j] == rest[j - 1]);
                }
            } else {
                assert(way_segments(coords, kmh, refs, i)[j] == rest[j]);
            }
        }
    }
}

/// Every segment of a retained-way sequence with positive speeds joins two
/// distinct non-reserved identifiers at a positive speed.
pub proof fn lemma_ways_segments_shape(
    coords: Map<i64, (i32, i32)>,
    ways: Seq<SimplifiedWay>,
    j: int,
)
    requires
        forall|q: int|
            0 <= q < ways.len() ==> (#[trigger] ways[q]).highway_speed_kmh >= 1,
    ensures
        forall|p: int|
            0 <= p < ways_segments(coords, ways, j).len() ==> {
                let s = #[trigger] ways_segments(coords, ways, j)[p];
                s.tail != s.head && s.tail != -1 && s.head != -1 && s.speed_kmh >= 1
            },
    decreases ways.len() - j,
{
    if !(j < 0 || j >= ways.len()) {
        lemma_way_segments_shape(coords, ways[j].highway_speed_kmh, ways[j].node_sequence@, 0);
        lemma_ways_segments_shape(coords, ways, j + 1);
        let left = way_segments(coords, ways[j].highway_speed_kmh, ways[j].node_sequence@, 0);
        let right = ways_segments(coords, ways, j + 1);
        assert forall|p: int|
            0 <= p < ways_segments(coords, ways, j).len() implies {
            let s = #[trigger] ways_segments(coords, ways, j)[p];
            s.tail != s.head && s.tail != -1 && s.head != -1 && s.speed_kmh >= 1
        } by {
            if p < left.len() {
                assert(ways_segments(coords, ways, j)[p] == left[p]);
            } else {
                assert(ways_segments(coords, ways, j)[p] == right[p - left.len()]);
            }
        }
    }
}

/// Walks the retained ways of an OSM extract and returns, in order, every
/// consecutive reference pair whose two endpoints have known coordinates,
/// ready to be measured. The coordinate of a pair's head is cached for the
/// next pair, so an endpoint shared by consecutive segments is resolved once.
pub fn collect_segments(osm_nodes: &Vec<OsmNode>, osm_ways: Vec<OsmWay>) -> (r: Vec<Segment>)
    ensures
        r@ == spec_segments(osm_nodes@, osm_ways@),
        forall|i: int|
            0 <= i < r@.len() ==> {
                let s = #[trigger] r@[i];
                s.tail != s.head && s.tail != -1 && s.head != -1 && s.speed_kmh >= 1
            },
{
    let ghost ctable = coord_table(osm_nodes@);
    let ghost sseq = simplify_ways(osm_ways@);

    let mut coords: IdMap<(i32, i32)> = IdMap::new();
    let nn = osm_nodes.len();
    let mut i: usize = 0;
    while i < nn
        invariant
            nn == osm_nodes@.len(),
            i <= nn,
            coords.wf(),
            coords@ == coord_table(osm_nodes@.subrange(0, i as int)),
        decreases nn - i,
    {
        let node = osm_nodes[i];
        coords.insert(node.id, (node.decimicro_lat, node.decimicro_lon));
        i = i + 1;
        proof {
            let pre = osm_nodes@.subrange(0, i - 1);
            let cur = osm_nodes@.subrange(0, i as int);
            assert(cur.drop_last() =~= pre);
            assert(cur.last() == osm_nodes@[i - 1]);
        }
    }
    proof {
        assert(osm_nodes@.subrange(0, nn as int) =~= osm_nodes@);
        assert(coords@ == ctable);
    }

    let mut ways_in = osm_ways;
    let ghost worig = ways_in@;
    let mut sways: Vec<SimplifiedWay> = Vec::new();
    let nw = ways_in.len();
    let mut wi: usize = 0;
    while wi < nw
        invariant
            worig == osm_ways@,
            nw == worig.len(),
            wi <= nw,
            ways_in@ == worig.subrange(wi as int, nw as int),
            sways@ == simplify_ways(worig.subrange(0, wi as int)),
        decreases nw - wi,
    {
        let way = ways_in.remove(0);
        proof {
            assert(way == worig[wi as int]);
        }
        let speed = speed_from_way_kmh(&way);
        match speed {
            Some(kmh) => {
                if way.node_refs.len() >= 2 {
                    let sw = SimplifiedWay {
                        id: way.id,
                        highway_speed_kmh: kmh,
                        node_sequence: way.node_refs,
                    };
                    sways.push(sw);
                }
            },
            None => {},
        }
        wi = wi + 1;
        proof {
            assert(ways_in@ =~= worig.subrange(wi as int, nw as int));
            let pre = worig.subrange(0, wi - 1);
            let cur = worig.subrange(0, wi as int);
            assert(cur.drop_last() =~= pre);
            assert(cur.last() == worig[wi - 1]);
            match spec_speed_kmh(opt_view(worig[wi - 1].highway)) {
                Some(kmh) => {
                    if worig[wi - 1].node_refs@.len() >= 2 {
                        assert(sways@ =~= simplify_ways(cur));
                    }
                },
                None => {},
            }
        }
    }
    proof {
        assert(worig.subrange(0, nw as int) =~= worig);
        assert(sways@ == sseq);
        lemma_simplified_ways_shape(worig);
    }

    let mut r: Vec<Segment> = Vec::new();
    let ns = sways.len();
    let mut wj: usize = 0;
    while wj < ns
        invariant
            ns == sways@.len(),
            wj <= ns,
            coords.wf(),
            coords@ == ctable,
            sways@ == sseq,
            forall|j: int|
                0 <= j < sseq.len() ==> (#[trigger] sseq[j]).highway_speed_kmh >= 1
                    && sseq[j].node_sequence@.len() >= 2,
            (r@ + ways_segments(ctable, sseq, wj as int) == ways_segments(ctable, sseq, 0)),
        decreases ns - wj,
    {
        let way = &sways[wj];
        let kmh = way.highway_speed_kmh;
        let ghost refs = way.node_sequence@;
        let ghost r0 = r@;
        let np = way.node_sequence.len();
        let mut pi: usize = 0;
        let mut cached: Option<(i32, i32)> = None;
        while pi < np - 1
            invariant
                np == refs.len(),
                np >= 2,
                pi < np,
                wj < ns,
                ns == sways@.len(),
                way == sways@[wj as int],
                refs == way.node_sequence@,
                kmh == way.highway_speed_kmh,
                coords.wf(),
                coords@ == ctable,
                match cached {
                    Some(c) => ctable.contains_key(refs[pi as int]) && ctable[refs[pi as int]]
                        == c,
                    None => true,
                },
                (r@ + way_segments(ctable, kmh, refs, pi as int) == r0 + way_segments(
                    ctable,
                    kmh,
                    refs,
                    0,
                )),
            decreases np - 1 - pi,
        {
            let a = way.node_sequence[pi];
            let b = way.node_sequence[pi + 1];
            let ghost rprev = r@;
            let tail: Option<(i32, i32)> = match cached {
                Some(c) => Some(c),
                None => match coords.get(a) {
                    Some(c) => Some(*c),
                    None => None,
                },
            };
            let mut next_cached: Option<(i32, i32)> = None;
            match tail {
                Some(ca) => {
                    let head: Option<(i32, i32)> = match coords.get(b) {
                        Some(c) => Some(*c),
                        None => None,
                    };
                    match head {
                        Some(cb) => {
                            next_cached = Some(cb);
                            if a != b && a != -1 && b != -1 {
                                let seg = Segment {
                                    tail: a,
                                    head: b,
                                    tail_lat: ca.0,
                                    tail_lon: ca.1,
                                    head_lat: cb.0,
                                    head_lon: cb.1,
                                    speed_kmh: kmh,
                                };
                                proof {
                                    assert(pair_retained(ctable, a, b));
                                    assert(seg == segment_of(ctable, kmh, a, b));
                                }
                                r.push(seg);
                            } else {
                                proof {
                                    assert(!pair_retained(ctable, a, b));
                                }
                            }
                        },
                        None => {
                            proof {
                                assert(!pair_retained(ctable, a, b));
                            }
                        },
                    }
                },
                None => {
                    proof {
                        assert(!ctable.contains_key(a));
                        assert(!pair_retained(ctable, a, b));
                    }
                },
            }
            cached = next_cached;
            pi = pi + 1;
            proof {
                if pair_retained(ctable, a, b) {
                    assert(r@ =~= rprev.push(segment_of(ctable, kmh, a, b)));
                    assert(way_segments(ctable, kmh, refs, pi - 1) == seq![
                        segment_of(ctable, kmh, a, b),
                    ] + way_segments(ctable, kmh, refs, pi as int));
                    assert(r@ + way_segments(ctable, kmh, refs, pi as int) =~= rprev
                        + way_segments(ctable, kmh, refs, pi - 1));
                } else {
                    assert(way_segments(ctable, kmh, refs, pi - 1) == way_segments(
                        ctable,
                        kmh,
                        refs,
                        pi as int,
                    ));
                }
            }
        }
        wj = wj + 1;
        proof {
            assert(way_segments(ctable, kmh, refs, np - 1) =~= Seq::<Segment>::empty());
            assert(r@ =~= r0 + way_segments(ctable, kmh, refs, 0));
            assert(ways_segments(ctable, sseq, wj - 1) == way_segments(ctable, kmh, refs, 0)
                + ways_segments(ctable, sseq, wj as int));
            assert(r@ + ways_segments(ctable, sseq, wj as int) =~= r0 + ways_segments(
                ctable,
                sseq,
                wj - 1,
            ));
        }
    }
    proof {
        assert(ways_segments(ctable, sseq, ns as int) =~= Seq::<Segment>::empty());
        assert(r@ =~= ways_segments(ctable, sseq, 0));
        lemma_ways_segments_shape(ctable, sseq, 0);
    }
    r
}

/// The graph assembled from measured segments: each contributes one
/// undirected edge costed by its length over its speed, later segments
/// overwriting the cost of a repeated pair.
pub open spec fn graph_of_segments(
    g: AdjacencyMap,
    segs: Seq<Segment>,
    lens: Seq<u64>,
    i: int,
) -> AdjacencyMap
    decreases segs.len() - i,
{
    if i < 0 || i >= segs.len() || segs.len() != lens.len() {
        g
    } else {
        graph_of_segments(
            add_edge_adj(
                g,
                segs[i].tail,
                segs[i].head,
                spec_cost_seconds(lens[i] as nat, segs[i].speed_kmh),
            ),
            segs,
            lens,
            i + 1,
        )
    }
}

/// Assembles the road graph from the collected segments and their measured
/// lengths in centimetres.
pub fn assemble_graph(segments: &Vec<Segment>, lengths_cm: &Vec<u64>) -> (r: RoadNetwork)
    requires
        lengths_cm@.len() == segments@.len(),
        forall|i: int|
            0 <= i < segments@.len() ==> {
                let s = #[trigger] segments@[i];
                s.tail != s.head && s.tail != -1 && s.head != -1 && s.speed_kmh >= 1
            },
    ensures
        r.wf(),
        (r.view_graph() == graph_of_segments(
            Map::<i64, Map<i64, u32>>::empty(),
            segments@,
            lengths_cm@,
            0,
        )),
{
    let mut graph = RoadNetwork::new();
    let n = segments.len();
    let mut i: usize = 0;
    while i < n
        invariant
            n == segments@.len(),
            lengths_cm@.len() == segments@.len(),
            i <= n,
            forall|j: int|
                0 <= j < segments@.len() ==> {
                    let s = #[trigger] segments@[j];
                    s.tail != s.head && s.tail != -1 && s.head != -1 && s.speed_kmh >= 1
                },
            graph.wf(),
            (graph_of_segments(graph.view_graph(), segments@, lengths_cm@, i as int)
                == graph_of_segments(
                Map::<i64, Map<i64, u32>>::empty(),
                segments@,
                lengths_cm@,
                0,
            )),
        decreases n - i,
    {
        let s = segments[i];
        let c = cost_seconds(lengths_cm[i], s.speed_kmh);
        let ghost gcur = graph.view_graph();
        graph.add_edge(s.tail, s.head, c);
        i = i + 1;
        proof {
            assert(graph_of_segments(gcur, segments@, lengths_cm@, i - 1) == graph_of_segments(
                graph.view_graph(),
                segments@,
                lengths_cm@,
                i as int,
            ));
        }
    }
    proof {
        assert(graph_of_segments(graph.view_graph(), segments@, lengths_cm@, n as int)
            == graph.view_graph());
    }
    graph
}

/// A way of exactly two distinct references whose coordinates are both known
/// yields exactly one segment, and that segment assembles into exactly one
/// undirected edge.
pub proof fn lemma_two_node_way(
    coords: Map<i64, (i32, i32)>,
    kmh: u32,
    refs: Seq<i64>,
    len_cm: u64,
)
    requires
        refs.len() == 2,
        pair_retained(coords, refs[0], refs[1]),
    ensures
        ({
            let segs = way_segments(coords, kmh, refs, 0);
            let g = graph_of_segments(
                Map::<i64, Map<i64, u32>>::empty(),
                segs,
                seq![len_cm],
                0,
            );
            let c = spec_cost_seconds(len_cm as nat, kmh);
            &&& segs.len() == 1
            &&& g.dom() == set![refs[0], refs[1]]
            &&& g[refs[0]] == map![refs[1] => c]
            &&& g[refs[1]] == map![refs[0] => c]
        }),
{
    let e = Map::<i64, Map<i64, u32>>::empty();
    let segs = way_segments(coords, kmh, refs, 0);
    assert(way_segments(coords, kmh, refs, 1) =~= Seq::<Segment>::empty());
    assert(segs =~= seq![segment_of(coords, kmh, refs[0], refs[1])]);
    let c = spec_cost_seconds(len_cm as nat, kmh);
    let g = graph_of_segments(e, segs, seq![len_cm], 0);
    assert(g == graph_of_segments(add_edge_adj(e, refs[0], refs[1], c), segs, seq![len_cm], 1));
    assert(g.dom() =~= set![refs[0], refs[1]]);
    assert(g[refs[0]] =~= map![refs[1] => c]);
    assert(g[refs[1]] =~= map![refs[0] => c]);
}

} // verus!

//! Scenario tests for the search engine, component pruning, and the ALT
//! heuristic, over small synthetic graphs.

use osm_router::ext_cost::ExtendedCost;
use osm_router::landmarks::{
    precompute_landmark_distances, precompute_landmark_distances_for,
    transform_landmark_db_into_heuristic,
};
use osm_router::road_network::RoadNetwork;
use osm_router::search::DijkstrasAlgorithm;

/// Nodes {1,2,3,4}; edges 1-2=3, 2-3=4, 3-4=2, 1-4=10.
fn quad() -> RoadNetwork {
    let mut g = RoadNetwork::new();
    g.add_edge(1, 2, 3);
    g.add_edge(2, 3, 4);
    g.add_edge(3, 4, 2);
    g.add_edge(1, 4, 10);
    g
}

/// Two disjoint triangles {1,2,3} and {11,12,13}, all edges cost 1.
fn two_triangles() -> RoadNetwork {
    let mut g = RoadNetwork::new();
    g.add_edge(1, 2, 1);
    g.add_edge(2, 3, 1);
    g.add_edge(1, 3, 1);
    g.add_edge(11, 12, 1);
    g.add_edge(12, 13, 1);
    g.add_edge(11, 13, 1);
    g
}

/// Chain 1-2=1, 2-3=1, 3-4=1, 4-5=1.
fn chain() -> RoadNetwork {
    let mut g = RoadNetwork::new();
    g.add_edge(1, 2, 1);
    g.add_edge(2, 3, 1);
    g.add_edge(3, 4, 1);
    g.add_edge(4, 5, 1);
    g
}

/// The chain plus a spur 2-6=100.
fn chain_with_spur() -> RoadNetwork {
    let mut g = chain();
    g.add_edge(2, 6, 100);
    g
}

#[test]
fn quad_shortest_paths() {
    let mut engine = DijkstrasAlgorithm::new(quad());
    let (cost_ac, _) = engine.compute_shortest_path(1, 3);
    assert_eq!(cost_ac, ExtendedCost::Finite(7));
    let (cost_ad, _) = engine.compute_shortest_path(1, 4);
    assert_eq!(cost_ad, ExtendedCost::Finite(9));
}

#[test]
fn graph_invariants_hold() {
    let g = quad();
    let n = g.nodes.len();
    for i in 0..n {
        let u = g.nodes.at(i);
        // every node is a key of the adjacency structure
        let nbrs = g.edges.get(u).expect("node without adjacency entry");
        for j in 0..nbrs.len() {
            let v = nbrs.key_at(j);
            let c = *nbrs.val_at(j);
            // no self-loop
            assert_ne!(u, v);
            // symmetric with equal cost
            let back = g.edges.get(v).expect("neighbor missing from adjacency");
            assert_eq!(back.get(u).copied(), Some(c));
        }
    }
    // every adjacency key is a node
    for i in 0..g.edges.len() {
        let k = g.edges.key_at(i);
        assert!(g.nodes.contains(k));
    }
    assert_eq!(g.edges.len(), g.nodes.len());
}

#[test]
fn search_source_cost_and_relaxation_closure() {
    let mut engine = DijkstrasAlgorithm::new(quad());
    let (_, dist) = engine.compute_shortest_path(1, -1);
    assert_eq!(dist.get(1).copied(), Some(0));
    let g = quad();
    for i in 0..dist.len() {
        let u = dist.key_at(i);
        let du = *dist.val_at(i);
        if let Some(nbrs) = g.edges.get(u) {
            for j in 0..nbrs.len() {
                let v = nbrs.key_at(j);
                let w = *nbrs.val_at(j);
                let dv = dist.get(v).copied().expect("neighbor of a reached node unreached");
                assert!(dv as u64 <= du as u64 + w as u64);
            }
        }
    }
}

#[test]
fn search_repeated_gives_identical_cost_map() {
    let mut engine = DijkstrasAlgorithm::new(quad());
    let (c1, d1) = engine.compute_shortest_path(1, 4);
    let (c2, d2) = engine.compute_shortest_path(1, 4);
    assert_eq!(c1, c2);
    assert_eq!(d1.len(), d2.len());
    for i in 0..d1.len() {
        let k = d1.key_at(i);
        assert_eq!(d1.get(k).copied(), d2.get(k).copied());
    }
}

#[test]
fn search_source_equals_target() {
    let mut engine = DijkstrasAlgorithm::new(quad());
    let (c, d) = engine.compute_shortest_path(2, 2);
    assert_eq!(c, ExtendedCost::Finite(0));
    assert_eq!(d.get(2).copied(), Some(0));
}

#[test]
fn disjoint_components_give_infinite_cost() {
    let mut engine = DijkstrasAlgorithm::new(two_triangles());
    let (c, d) = engine.compute_shortest_path(1, 11);
    assert_eq!(c, ExtendedCost::Infinity);
    assert!(d.get(11).is_none());
    assert!(d.get(1).is_some());
}

#[test]
fn prune_keeps_exactly_one_triangle() {
    let mut engine = DijkstrasAlgorithm::new(two_triangles());
    engine.reduce_to_largest_connected_component();
    let g = &engine.graph;
    assert_eq!(g.nodes.len(), 3);
    let first = g.nodes.contains(1) && g.nodes.contains(2) && g.nodes.contains(3);
    let second = g.nodes.contains(11) && g.nodes.contains(12) && g.nodes.contains(13);
    assert!(first || second);
    // exactly three undirected edges: three adjacency keys of two neighbors
    assert_eq!(g.edges.len(), 3);
    for i in 0..g.edges.len() {
        assert_eq!(g.edges.val_at(i).len(), 2);
    }
    // the pruned graph is connected: one search reaches all three nodes
    let any = engine.graph.nodes.at(0);
    let (_, d) = engine.compute_shortest_path(any, -1);
    assert_eq!(d.len(), 3);
}

#[test]
fn find_largest_component_reports_majority_round() {
    // a triangle and an isolated pair: the triangle dominates
    let mut g = RoadNetwork::new();
    g.add_edge(1, 2, 1);
    g.add_edge(2, 3, 1);
    g.add_edge(1, 3, 1);
    g.add_edge(21, 22, 7);
    let mut engine = DijkstrasAlgorithm::new(g);
    let dominant = engine.find_largest_connected_component();
    assert!(dominant >= 1);
    // the dominant round labels the three triangle nodes
    let marks = &engine.visited_node_marks;
    let mut labeled = Vec::new();
    for i in 0..marks.len() {
        let k = marks.key_at(i);
        if *marks.val_at(i) == dominant {
            labeled.push(k);
        }
    }
    labeled.sort();
    assert_eq!(labeled, vec![1, 2, 3]);
}

#[test]
fn prune_twice_equals_once() {
    let mut engine = DijkstrasAlgorithm::new(two_triangles());
    engine.reduce_to_largest_connected_component();
    let rounds_once = engine.number_of_completed_rounds;
    let mut nodes_once = Vec::new();
    for i in 0..engine.graph.nodes.len() {
        nodes_once.push(engine.graph.nodes.at(i));
    }
    engine.reduce_to_largest_connected_component();
    assert_eq!(engine.number_of_completed_rounds, rounds_once);
    assert_eq!(engine.graph.nodes.len(), nodes_once.len());
    for &k in &nodes_once {
        assert!(engine.graph.nodes.contains(k));
        assert!(engine.graph.edges.get(k).is_some());
    }
}

#[test]
fn landmark_heuristic_values_on_chain() {
    let g = chain();
    let db = precompute_landmark_distances_for(&g, &vec![1, 5]);
    assert_eq!(db.len(), 2);
    // the landmark tables are full shortest-path tables
    assert_eq!(db.get(1).unwrap().get(5).copied(), Some(4));
    assert_eq!(db.get(5).unwrap().get(1).copied(), Some(4));
    let h = transform_landmark_db_into_heuristic(&g, &db, 5);
    assert_eq!(h.get(2).copied(), Some(3));
    assert_eq!(h.get(1).copied(), Some(4));
    assert_eq!(h.get(3).copied(), Some(2));
    assert_eq!(h.get(4).copied(), Some(1));
    assert_eq!(h.get(5).copied(), Some(0));
}

#[test]
fn alt_search_matches_plain_on_chain() {
    let g = chain();
    let db = precompute_landmark_distances_for(&g, &vec![1, 5]);
    let h = transform_landmark_db_into_heuristic(&g, &db, 5);
    let mut plain = DijkstrasAlgorithm::new(chain());
    let (c_plain, _) = plain.compute_shortest_path(1, 5);
    let mut alt = DijkstrasAlgorithm::new(chain());
    alt.change_heuristic(Some(h));
    let (c_alt, _) = alt.compute_shortest_path(1, 5);
    assert_eq!(c_plain, ExtendedCost::Finite(4));
    assert_eq!(c_alt, ExtendedCost::Finite(4));
}

#[test]
fn alt_search_matches_plain_with_spur() {
    let g = chain_with_spur();
    let db = precompute_landmark_distances_for(&g, &vec![1, 5]);
    let h = transform_landmark_db_into_heuristic(&g, &db, 5);
    // the spur's heuristic keeps A* away from it
    assert!(h.get(6).copied().unwrap() >= 3);
    let mut plain = DijkstrasAlgorithm::new(chain_with_spur());
    let (c_plain, _) = plain.compute_shortest_path(1, 5);
    let mut alt = DijkstrasAlgorithm::new(chain_with_spur());
    alt.change_heuristic(Some(h));
    let (c_alt, _) = alt.compute_shortest_path(1, 5);
    assert_eq!(c_plain, ExtendedCost::Finite(4));
    assert_eq!(c_alt, ExtendedCost::Finite(4));
}

#[test]
fn heuristic_admissible_and_consistent_values() {
    let g = chain_with_spur();
    let db = precompute_landmark_distances_for(&g, &vec![1, 5]);
    let h = transform_landmark_db_into_heuristic(&g, &db, 5);
    // admissibility: h(u) <= d(u, target) for every reachable u
    let mut from_target = DijkstrasAlgorithm::new(chain_with_spur());
    let (_, d) = from_target.compute_shortest_path(5, -1);
    for i in 0..d.len() {
        let u = d.key_at(i);
        let du = *d.val_at(i);
        let hu = h.get(u).copied().unwrap();
        assert!(hu <= du);
    }
    // consistency: h(u) <= h(v) + w across every edge
    for i in 0..g.edges.len() {
        let u = g.edges.key_at(i);
        let nbrs = g.edges.val_at(i);
        for j in 0..nbrs.len() {
            let v = nbrs.key_at(j);
            let w = *nbrs.val_at(j);
            let hu = h.get(u).copied().unwrap() as u64;
            let hv = h.get(v).copied().unwrap() as u64;
            assert!(hu <= hv + w as u64);
        }
    }
}

#[test]
fn default_landmarks_take_first_nodes() {
    let g = chain();
    let db = precompute_landmark_distances(&g, 2);
    assert_eq!(db.len(), 2);
    // nodes enter in edge-insertion order, so the first two are 1 and 2
    assert!(db.get(1).is_some());
    assert!(db.get(2).is_some());
    // more landmarks than nodes: every node becomes one
    let all = precompute_landmark_distances(&g, 100);
    assert_eq!(all.len(), 5);
}

#[test]
fn extended_cost_algebra() {
    let fin = ExtendedCost::Finite;
    assert_eq!(fin(2).saturating_add(fin(3)), fin(5));
    assert_eq!(fin(u32::MAX).saturating_add(fin(1)), ExtendedCost::Infinity);
    assert_eq!(fin(u32::MAX).saturating_add(fin(0)), fin(u32::MAX));
    assert_eq!(ExtendedCost::Infinity.saturating_add(fin(7)), ExtendedCost::Infinity);
    assert_eq!(fin(7).saturating_add(ExtendedCost::Infinity), ExtendedCost::Infinity);
    assert!(fin(3).lt(&ExtendedCost::Infinity));
    assert!(!ExtendedCost::Infinity.lt(&ExtendedCost::Infinity));
    assert!(!ExtendedCost::Infinity.lt(&fin(3)));
    assert!(fin(3).le(&fin(3)));
    assert!(!fin(4).le(&fin(3)));
    assert!(ExtendedCost::Infinity.le(&ExtendedCost::Infinity));
    assert_eq!(fin(4).max(ExtendedCost::Infinity), ExtendedCost::Infinity);
    assert_eq!(fin(4).min(ExtendedCost::Infinity), fin(4));
    assert_eq!(fin(4).max(fin(9)), fin(9));
    assert_eq!(fin(5).clamp(fin(1), fin(4)), fin(4));
    assert_eq!(fin(0).clamp(fin(1), fin(4)), fin(1));
    assert_eq!(fin(9).priority(), 9u64);
    assert_eq!(ExtendedCost::Infinity.priority(), u64::MAX);
}

#[test]
fn duplicate_edge_last_writer_wins() {
    let mut g = RoadNetwork::new();
    g.add_edge(1, 2, 5);
    g.add_edge(2, 1, 9);
    assert_eq!(g.edges.get(1).unwrap().get(2).copied(), Some(9));
    assert_eq!(g.edges.get(2).unwrap().get(1).copied(), Some(9));
    assert_eq!(g.nodes.len(), 2);
}

#[test]
fn search_from_node_outside_graph() {
    // an unknown source settles only itself, at cost zero
    let mut engine = DijkstrasAlgorithm::new(quad());
    let (c, d) = engine.compute_shortest_path(77, 1);
    assert_eq!(c, ExtendedCost::Infinity);
    assert_eq!(d.get(77).copied(), Some(0));
    assert_eq!(d.len(), 1);
}

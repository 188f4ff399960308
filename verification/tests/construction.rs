//! Tests for graph construction from OSM primitives: the speed table,
//! segment collection, and graph assembly from measured lengths.

use osm_router::geo::cost_seconds;
use osm_router::road_network::{
    assemble_graph, collect_segments, speed_from_way_kmh, OsmNode, OsmWay, RoadNetwork, Segment,
};

fn node(id: i64, lat: i32, lon: i32) -> OsmNode {
    OsmNode { id, decimicro_lat: lat, decimicro_lon: lon }
}

fn way(id: i64, highway: Option<&str>, refs: Vec<i64>) -> OsmWay {
    OsmWay { id, highway: highway.map(|s| s.to_string()), node_refs: refs }
}

/// Measures a segment the way the surrounding program does: haversine
/// distance in metres, floored to centimetres.
fn measure(s: &Segment) -> u64 {
    let a = geoutils::Location::new(s.tail_lat as f64 * 1e-7, s.tail_lon as f64 * 1e-7);
    let b = geoutils::Location::new(s.head_lat as f64 * 1e-7, s.head_lon as f64 * 1e-7);
    (a.haversine_distance_to(&b).meters() * 100.0) as u64
}

#[test]
fn speed_table() {
    let cases: [(&str, Option<u32>); 16] = [
        ("motorway", Some(110)),
        ("trunk", Some(110)),
        ("primary", Some(70)),
        ("secondary", Some(60)),
        ("tertiary", Some(50)),
        ("motorway_link", Some(50)),
        ("trunk_link", Some(50)),
        ("primary_link", Some(50)),
        ("secondary_link", Some(50)),
        ("road", Some(40)),
        ("unclassified", Some(40)),
        ("residential", Some(30)),
        ("unsurfaced", Some(30)),
        ("living_street", Some(10)),
        ("service", Some(5)),
        ("footway", None),
    ];
    for (tag, expect) in cases {
        assert_eq!(speed_from_way_kmh(&way(1, Some(tag), vec![1, 2])), expect);
    }
    assert_eq!(speed_from_way_kmh(&way(1, None, vec![1, 2])), None);
}

#[test]
fn two_node_way_gives_one_segment_and_one_edge() {
    let nodes = vec![node(1, 0, 0), node(2, 4542, 0)];
    let ways = vec![way(7, Some("service"), vec![1, 2])];
    let segs = collect_segments(&nodes, ways);
    assert_eq!(segs.len(), 1);
    assert_eq!(
        segs[0],
        Segment {
            tail: 1,
            head: 2,
            tail_lat: 0,
            tail_lon: 0,
            head_lat: 4542,
            head_lon: 0,
            speed_kmh: 5,
        },
    );
    let g = assemble_graph(&segs, &vec![5000]);
    assert_eq!(g.nodes.len(), 2);
    assert_eq!(g.edges.len(), 2);
    assert_eq!(g.edges.get(1).unwrap().len(), 1);
    assert_eq!(g.edges.get(1).unwrap().get(2).copied(), Some(36));
    assert_eq!(g.edges.get(2).unwrap().get(1).copied(), Some(36));
}

#[test]
fn service_speed_cost_formula() {
    // 50 m at 5 km/h (25/18 m/s) takes 36 whole seconds
    assert_eq!(cost_seconds(5000, 5), 36);
    assert_eq!(cost_seconds(0, 5), 0);
    // 100 m at 110 km/h: floor(100 / (110 * 5/18)) = 3
    assert_eq!(cost_seconds(10000, 110), 3);
    // the cost saturates instead of wrapping
    assert_eq!(cost_seconds(u64::MAX, 1), u32::MAX);
}

#[test]
fn service_way_fifty_metres_costs_36() {
    // 4542 decimicro-degrees of latitude is just over 50 m on the sphere
    let nodes = vec![node(1, 0, 0), node(2, 4542, 0)];
    let ways = vec![way(7, Some("service"), vec![1, 2])];
    let segs = collect_segments(&nodes, ways);
    let lengths: Vec<u64> = segs.iter().map(measure).collect();
    assert!(lengths[0] >= 5000 && lengths[0] < 5138);
    let g = assemble_graph(&segs, &lengths);
    assert_eq!(g.edges.get(1).unwrap().get(2).copied(), Some(36));
}

#[test]
fn malformed_ways_are_dropped() {
    let nodes = vec![node(1, 0, 0), node(2, 4542, 0), node(3, 9084, 0)];
    let ways = vec![
        way(1, Some("service"), vec![1]),
        way(2, Some("footpath"), vec![1, 2]),
        way(3, None, vec![1, 2]),
        way(4, Some("service"), vec![]),
    ];
    let segs = collect_segments(&nodes, ways);
    assert!(segs.is_empty());
}

#[test]
fn unknown_coordinates_drop_only_their_pairs() {
    let nodes = vec![node(1, 0, 0), node(2, 4542, 0)];
    // node 99 never appears in the node stream
    let both_unknown = collect_segments(&nodes, vec![way(4, Some("service"), vec![1, 99, 2])]);
    assert!(both_unknown.is_empty());
    let one_kept = collect_segments(&nodes, vec![way(5, Some("service"), vec![1, 2, 99])]);
    assert_eq!(one_kept.len(), 1);
    assert_eq!(one_kept[0].tail, 1);
    assert_eq!(one_kept[0].head, 2);
}

#[test]
fn longer_way_walks_consecutive_pairs() {
    let nodes = vec![node(1, 0, 0), node(2, 4542, 0), node(3, 9084, 0), node(4, 13626, 0)];
    let ways = vec![way(9, Some("residential"), vec![1, 2, 3, 4])];
    let segs = collect_segments(&nodes, ways);
    assert_eq!(segs.len(), 3);
    assert_eq!((segs[0].tail, segs[0].head), (1, 2));
    assert_eq!((segs[1].tail, segs[1].head), (2, 3));
    assert_eq!((segs[2].tail, segs[2].head), (3, 4));
    for s in &segs {
        assert_eq!(s.speed_kmh, 30);
    }
    let lengths: Vec<u64> = segs.iter().map(measure).collect();
    let g = assemble_graph(&segs, &lengths);
    assert_eq!(g.nodes.len(), 4);
    // interior nodes have two neighbors, ends have one
    assert_eq!(g.edges.get(1).unwrap().len(), 1);
    assert_eq!(g.edges.get(2).unwrap().len(), 2);
    assert_eq!(g.edges.get(3).unwrap().len(), 2);
    assert_eq!(g.edges.get(4).unwrap().len(), 1);
}

#[test]
fn last_node_occurrence_wins_coordinates() {
    // the same identifier appears twice in the node stream
    let nodes = vec![node(1, 7777, 7777), node(1, 0, 0), node(2, 4542, 0)];
    let segs = collect_segments(&nodes, vec![way(3, Some("service"), vec![1, 2])]);
    assert_eq!(segs.len(), 1);
    assert_eq!((segs[0].tail_lat, segs[0].tail_lon), (0, 0));
}

use bike_router::geo::distance;
use bike_router::node::{get_positions, AdjacentNode, Node};
use bike_router::way::Way;

fn tags(pairs: &[(&str, &str)]) -> Vec<(String, String)> {
    pairs.iter().map(|(k, v)| (k.to_string(), v.to_string())).collect()
}

fn close(a: i32, b: i32, tolerance: i32) -> bool {
    (a - b).abs() <= tolerance
}

#[test]
fn distance_of_a_point_to_itself_is_zero() {
    assert_eq!(distance(488_566_000, 23_522_000, 488_566_000, 23_522_000), 0);
    assert_eq!(distance(0, 0, 0, 0), 0);
}

#[test]
fn distance_paris_london() {
    // Paris (48.8566, 2.3522) to London (51.5074, -0.1278): about 343.56 km.
    let d = distance(488_566_000, 23_522_000, 515_074_000, -1_278_000);
    assert!(close(d, 343_556, 300), "got {}", d);
    assert_eq!(d, distance(515_074_000, -1_278_000, 488_566_000, 23_522_000));
}

#[test]
fn distance_one_degree_of_latitude() {
    // 2 * pi * 6371 km / 360 = 111194.9 m
    let d = distance(0, 0, 10_000_000, 0);
    assert!(close(d, 111_195, 2), "got {}", d);
    let e = distance(0, 0, 0, 10_000_000);
    assert!(close(e, 111_195, 2), "got {}", e);
}

#[test]
fn distance_short_edge() {
    // about 11.1 m along a meridian
    let d = distance(450_000_000, 50_000_000, 450_001_000, 50_000_000);
    assert!(close(d, 11, 1), "got {}", d);
}

#[test]
fn distance_antipodes() {
    let d = distance(0, 0, 0, 1_800_000_000);
    assert!(close(d, 20_015_087, 20), "got {}", d);
}

#[test]
fn positions_of_an_id() {
    assert_eq!(get_positions(&vec![4, 7, 4, 9, 4], 4), vec![0, 2, 4]);
    assert_eq!(get_positions(&vec![4, 7], 5), Vec::<usize>::new());
}

#[test]
fn node_distance_and_costs() {
    let a = Node { id: 1, lat: 450_000_000, lon: 50_000_000, adjacent_nodes: vec![] };
    let b = Node { id: 2, lat: 450_010_000, lon: 50_000_000, adjacent_nodes: vec![] };
    let d = a.distance(&b);
    assert!(close(d, 111, 1), "got {}", d);
    let edge = AdjacentNode {
        node_id: 2,
        tags: tags(&[("highway", "cycleway")]),
        distance: 100,
        intermediate_nodes: None,
    };
    assert_eq!(a.calculate_cost_safe(&edge), Ok(70));
    assert_eq!(a.calculate_cost_fast(&b, &edge), (d as i64 * 8) / 10);
}

#[test]
fn one_way_neighbours() {
    let one_way = Way { id: 1, nodes: vec![10, 11, 12], tags: tags(&[("highway", "residential"), ("oneway", "yes")]), distance: None };
    assert_eq!(one_way.neighbors(10), vec![11]);
    assert_eq!(one_way.neighbors(11), vec![12]);
    assert_eq!(one_way.neighbors(12), Vec::<i64>::new());
    let exempt = Way {
        id: 2,
        nodes: vec![10, 11, 12],
        tags: tags(&[("highway", "residential"), ("oneway", "yes"), ("oneway:bicycle", "no")]),
        distance: None,
    };
    assert_eq!(exempt.neighbors(11), vec![12, 10]);
    let two_way = Way { id: 3, nodes: vec![10, 11, 12], tags: tags(&[("highway", "residential")]), distance: None };
    assert_eq!(two_way.neighbors(11), vec![12, 10]);
    assert_eq!(two_way.neighbors(12), vec![11]);
}

#[test]
fn way_from_row_and_length() {
    let flat: Vec<String> = vec!["highway", "cycleway", "oneway", "yes"].into_iter().map(|s| s.to_string()).collect();
    let w = Way::from_row(5, vec![1, 2, 3], &flat, Some(42));
    assert_eq!(w.id, 5);
    assert_eq!(w.nodes, vec![1, 2, 3]);
    assert_eq!(w.distance, Some(42));
    assert_eq!(w.neighbors(2), vec![3]);
    let pts = vec![(0, 0), (10_000_000, 0), (20_000_000, 0)];
    let len = Way::length_of(&pts);
    assert_eq!(len, distance(0, 0, 10_000_000, 0) as i64 + distance(10_000_000, 0, 20_000_000, 0) as i64);
    assert_eq!(Way::length_of(&vec![(5, 5)]), 0);
    assert_eq!(Way::length_of(&vec![]), 0);
}

#[test]
fn node_from_ways() {
    let w1 = Way { id: 1, nodes: vec![1, 2, 3], tags: tags(&[("highway", "cycleway")]), distance: None };
    let w2 = Way { id: 2, nodes: vec![4, 2], tags: tags(&[("highway", "path"), ("oneway", "yes")]), distance: None };
    let coords = vec![(1, 0, 0), (3, 0, 2000), (4, 1000, 1000), (2, 0, 1000)];
    let n = Node::from_ways(2, 0, 1000, &vec![w1.clone(), w2.clone()], &coords).unwrap();
    assert_eq!(n.id, 2);
    let targets: Vec<i64> = n.adjacent_nodes.iter().map(|a| a.node_id).collect();
    assert_eq!(targets, vec![3, 1]);
    assert_eq!(n.adjacent_nodes[0].tags, w1.tags);
    assert_eq!(n.adjacent_nodes[0].distance, distance(0, 1000, 0, 2000));
    assert_eq!(n.adjacent_nodes[0].intermediate_nodes, None);
    let n4 = Node::from_ways(4, 1000, 1000, &vec![w2.clone()], &coords).unwrap();
    assert_eq!(n4.adjacent_nodes.len(), 1);
    assert_eq!(n4.adjacent_nodes[0].node_id, 2);
    assert_eq!(Node::from_ways(2, 0, 1000, &vec![w1], &vec![(1, 0, 0)]), Err(3));
}

#[test]
fn closest_candidate() {
    let mk = |id: i64, lat: i32, lon: i32| Node { id, lat, lon, adjacent_nodes: vec![] };
    let nodes = vec![mk(1, 100, 100), mk(2, 10, 10), mk(3, -10, -10), mk(4, 50, 0)];
    assert_eq!(Node::closest(&nodes, 0, 0), Some(1));
    assert_eq!(Node::closest(&nodes, 60, 0), Some(3));
    assert_eq!(Node::closest(&Vec::new(), 0, 0), None);
}

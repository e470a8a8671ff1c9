use bike_router::cost::Model;
use bike_router::graph::{Graph, GraphError};
use bike_router::node::{AdjacentNode, Node};
use bike_router::search::{astar, Search, SearchError, Verdict};

fn tags(pairs: &[(&str, &str)]) -> Vec<(String, String)> {
    pairs.iter().map(|(k, v)| (k.to_string(), v.to_string())).collect()
}

fn edge(to: i64, distance: i32, pairs: &[(&str, &str)]) -> AdjacentNode {
    AdjacentNode { node_id: to, tags: tags(pairs), distance, intermediate_nodes: None }
}

fn node(id: i64, lat: i32, lon: i32, edges: Vec<AdjacentNode>) -> Node {
    Node { id, lat, lon, adjacent_nodes: edges }
}

fn graph(nodes: Vec<Node>) -> Graph {
    let mut g = Graph::new(false);
    for n in nodes {
        g.insert(n);
    }
    g
}

const CYCLEWAY: &[(&str, &str)] = &[("highway", "cycleway")];
const ROAD: &[(&str, &str)] = &[("highway", "residential")];

/// A -- B -- C along a cycleway, each edge 10 m long; all at one point so
/// that the estimate adds nothing.
fn line_graph() -> Graph {
    graph(vec![
        node(1, 0, 0, vec![edge(2, 10, CYCLEWAY)]),
        node(2, 0, 0, vec![edge(1, 10, CYCLEWAY), edge(3, 10, CYCLEWAY)]),
        node(3, 0, 0, vec![edge(2, 10, CYCLEWAY)]),
    ])
}

#[test]
fn line_graph_route() {
    let g = line_graph();
    assert_eq!(astar(&g, 1, 3, Model::Safe, 1000), Ok((vec![1, 2, 3], 14)));
}

#[test]
fn start_is_goal() {
    let g = line_graph();
    assert_eq!(astar(&g, 2, 2, Model::Safe, 1000), Ok((vec![2], 0)));
}

#[test]
fn motorway_only_gives_no_path() {
    let g = graph(vec![
        node(1, 0, 0, vec![edge(2, 100, &[("highway", "motorway")])]),
        node(2, 0, 10_000, vec![edge(1, 100, &[("highway", "motorway")])]),
    ]);
    assert_eq!(astar(&g, 1, 2, Model::Safe, 1000), Err(SearchError::NoPathFound));
    assert_eq!(astar(&g, 1, 2, Model::Fast, 1000), Err(SearchError::NoPathFound));
}

#[test]
fn ferry_loses_to_longer_land_route() {
    // A -> B by ferry: 100 m * 100 = 10000. A -> C -> B over land: 2 * 300 m.
    let g = graph(vec![
        node(1, 0, 0, vec![edge(2, 100, &[("route", "ferry"), ("highway", "residential")]), edge(3, 300, ROAD)]),
        node(3, 0, 0, vec![edge(2, 300, ROAD)]),
        node(2, 0, 0, vec![]),
    ]);
    assert_eq!(astar(&g, 1, 2, Model::Safe, 1000), Ok((vec![1, 3, 2], 600)));
}

#[test]
fn zero_deadline_returns_the_start() {
    let g = line_graph();
    assert_eq!(
        astar(&g, 1, 3, Model::Safe, 0),
        Err(SearchError::DeadlineExceeded { path: vec![1], cost: 0 })
    );
}

#[test]
fn deadline_after_one_expansion() {
    let g = line_graph();
    assert_eq!(
        astar(&g, 1, 3, Model::Safe, 1),
        Err(SearchError::DeadlineExceeded { path: vec![1, 2], cost: 7 })
    );
}

#[test]
fn repeated_search_gives_the_same_result() {
    let g = line_graph();
    let first = astar(&g, 1, 3, Model::Safe, 1000);
    let second = astar(&g, 1, 3, Model::Safe, 1000);
    assert_eq!(first, second);
}

#[test]
fn returned_cost_is_the_sum_of_edge_costs() {
    // A -> B (residential 100), B -> D (cycleway 50), A -> C (path 40), C -> D (footway 40)
    let g = graph(vec![
        node(1, 0, 0, vec![edge(2, 100, ROAD), edge(3, 40, &[("highway", "path")])]),
        node(2, 0, 0, vec![edge(4, 50, CYCLEWAY)]),
        node(3, 0, 0, vec![edge(4, 40, &[("highway", "footway")])]),
        node(4, 0, 0, vec![]),
    ]);
    let (path, cost) = astar(&g, 1, 4, Model::Safe, 1000).unwrap();
    // via C: 64 + 44 = 108; via B: 100 + 35 = 135
    assert_eq!(path, vec![1, 3, 4]);
    assert_eq!(cost, 64 + 44);
    let mut sum = 0;
    for w in path.windows(2) {
        let from = g.get_node(w[0]).unwrap();
        let succ = from.successors(&g, Model::Safe).unwrap();
        sum += succ.iter().find(|(to, _)| *to == w[1]).unwrap().1;
    }
    assert_eq!(sum, cost);
}

#[test]
fn cheaper_path_found_later_replaces_the_record() {
    // B is first reached directly at cost 100, then through C at 20 + 20.
    let g = graph(vec![
        node(1, 0, 0, vec![edge(2, 100, ROAD), edge(3, 20, ROAD)]),
        node(3, 0, 0, vec![edge(2, 20, ROAD)]),
        node(2, 0, 0, vec![edge(4, 10, ROAD)]),
        node(4, 0, 0, vec![]),
    ]);
    assert_eq!(astar(&g, 1, 4, Model::Safe, 1000), Ok((vec![1, 3, 2, 4], 50)));
}

#[test]
fn one_way_edge_is_directed() {
    let g = graph(vec![
        node(1, 0, 0, vec![edge(2, 10, ROAD)]),
        node(2, 0, 0, vec![]),
    ]);
    assert_eq!(astar(&g, 1, 2, Model::Safe, 100), Ok((vec![1, 2], 10)));
    assert_eq!(astar(&g, 2, 1, Model::Safe, 100), Err(SearchError::NoPathFound));
}

#[test]
fn missing_node_is_reported() {
    let g = graph(vec![node(1, 0, 0, vec![edge(2, 10, ROAD)])]);
    assert_eq!(astar(&g, 1, 9, Model::Safe, 100), Err(SearchError::Access(GraphError::NotFound(9))));
    let g2 = graph(vec![node(1, 0, 0, vec![edge(2, 10, ROAD)]), node(9, 0, 0, vec![])]);
    assert_eq!(astar(&g2, 1, 9, Model::Safe, 100), Err(SearchError::Access(GraphError::NotFound(2))));
}

#[test]
fn negative_edge_aborts_the_search() {
    let g = graph(vec![node(1, 0, 0, vec![edge(2, -5, ROAD)]), node(2, 0, 0, vec![])]);
    assert_eq!(
        astar(&g, 1, 2, Model::Safe, 100),
        Err(SearchError::Access(GraphError::NegativeDistance(2)))
    );
}

#[test]
fn successors_skip_excluded_edges() {
    let g = graph(vec![
        node(1, 0, 0, vec![edge(2, 100, &[("highway", "steps")]), edge(3, 100, CYCLEWAY)]),
        node(2, 0, 0, vec![]),
        node(3, 0, 0, vec![]),
    ]);
    let n = g.get_node(1).unwrap();
    assert_eq!(n.successors(&g, Model::Safe), Ok(vec![(3, 70)]));
    // the fast profile measures the distance between the nodes themselves
    assert_eq!(n.successors(&g, Model::Fast), Ok(vec![(3, 0)]));
}

#[test]
fn resumable_search_asks_for_missing_nodes() {
    let mut g = graph(vec![node(1, 0, 0, vec![edge(2, 10, CYCLEWAY)]), node(3, 0, 0, vec![])]);
    let mut s = Search::new(1, 3, Model::Safe, 100);
    assert_eq!(s.run(&g), Verdict::Need(2));
    g.insert(node(2, 0, 0, vec![edge(3, 10, CYCLEWAY)]));
    match s.run(&g) {
        Verdict::Found(i) => assert_eq!(s.route_to(i), (vec![1, 2, 3], 14)),
        other => panic!("unexpected {:?}", other),
    }
}

#[test]
fn expire_ends_the_search_at_the_next_candidate() {
    let g = line_graph();
    let mut s = Search::new(1, 3, Model::Safe, 100);
    s.expire();
    match s.run(&g) {
        Verdict::Deadline(i) => assert_eq!(s.route_to(i), (vec![1], 0)),
        other => panic!("unexpected {:?}", other),
    }
    assert_eq!(s.steps(), 0);
}

#[test]
fn cache_keeps_whole_nodes() {
    let mut g = Graph::new(false);
    assert_eq!(g.get_node(7), Err(GraphError::NotFound(7)));
    let a = node(7, 1, 2, vec![edge(8, 10, ROAD)]);
    g.insert(a.clone());
    g.insert(a.clone());
    assert!(g.contains(7));
    assert_eq!(g.get_node(7), Ok(&a));
}

#[test]
fn worse_path_found_later_changes_nothing() {
    // B is reached directly at cost 10; the way through C costs 5 + 100.
    let g = graph(vec![
        node(1, 0, 0, vec![edge(2, 10, ROAD), edge(3, 5, ROAD)]),
        node(3, 0, 0, vec![edge(2, 100, ROAD)]),
        node(2, 0, 0, vec![edge(4, 10, ROAD)]),
        node(4, 0, 0, vec![]),
    ]);
    assert_eq!(astar(&g, 1, 4, Model::Safe, 1000), Ok((vec![1, 2, 4], 20)));
}

#[test]
fn adjacent_node_tag_queries() {
    let e = edge(2, 10, &[("highway", "cycleway"), ("oneway", "yes")]);
    assert!(e.has_tag_value("highway", "cycleway"));
    assert!(!e.has_tag_value("highway", "path"));
    assert!(e.has_tag("oneway"));
    assert!(!e.has_tag("surface"));
}

use speedwalk::graph::Graph;
use speedwalk::network::{NetworkFilter, NetworkFilterType};
use speedwalk::scrape::{scrape_osm, InputNode, InputWay};
use speedwalk::store::Speedwalk;
use speedwalk::tags::Tags;

fn node(id: i64, x: i64, y: i64) -> InputNode {
    InputNode { id, x, y, lon: x, lat: y, tags: Tags::empty(), version: 1 }
}

fn way(id: i64, node_ids: Vec<i64>, tags: Vec<&str>) -> InputWay {
    InputWay { id, node_ids, tags: Tags::new_from_pairs(&tags), version: 1 }
}

fn chain_model(total_len: i64) -> Speedwalk {
    let half = total_len / 2;
    let nodes = vec![
        node(1, 0, 0),
        node(2, half, 0),
        node(3, total_len, 0),
    ];
    let ways = vec![
        way(10, vec![1, 2], vec!["highway=residential"]),
        way(11, vec![2, 3], vec!["highway=residential"]),
    ];
    scrape_osm(nodes, ways, None)
}

#[test]
fn dead_end_chain_under_threshold_is_fully_suppressed() {
    // Total length 8 units, ending in two degree-1 intersections.
    let m = chain_model(8000);
    let g = Graph::new(&m);
    let filter = NetworkFilter { selection: NetworkFilterType::RouteableNetwork, ignore_deadends: true };
    let mask = m.inclusion_mask(&filter, &g);
    assert!(mask.iter().all(|&b| b));
    let kept = m.suppress_dead_ends(&g, &mask);
    assert!(kept.iter().all(|&b| !b));
}

#[test]
fn dead_end_chain_over_threshold_is_kept() {
    // The same chain at 12 units stays.
    let m = chain_model(12000);
    let g = Graph::new(&m);
    let filter = NetworkFilter { selection: NetworkFilterType::RouteableNetwork, ignore_deadends: true };
    let mask = m.inclusion_mask(&filter, &g);
    let kept = m.suppress_dead_ends(&g, &mask);
    assert!(kept.iter().all(|&b| b));
}

#[test]
fn routable_filter_follows_kind_and_class() {
    let nodes = vec![node(1, 0, 0), node(2, 5000, 0), node(3, 0, 5000), node(4, 5000, 5000)];
    let ways = vec![
        way(10, vec![1, 2], vec!["highway=trunk", "sidewalk=separate"]),
        way(11, vec![3, 4], vec!["highway=residential", "sidewalk=no"]),
    ];
    let m = scrape_osm(nodes, ways, None);
    let g = Graph::new(&m);
    let filter = NetworkFilter { selection: NetworkFilterType::RouteableNetwork, ignore_deadends: false };
    for e in &g.edges {
        let inc = m.filter_network(&filter, e);
        if e.osm_way == 10 {
            // A road with separate sidewalks routes over its sidewalks.
            assert!(!inc);
        } else {
            // A residential street without sidewalks is still walkable.
            assert!(inc);
        }
    }
}

#[test]
fn connected_components_group_disconnected_islands() {
    let nodes = vec![
        node(1, 0, 0),
        node(2, 20000, 0),
        node(3, 0, 50000),
        node(4, 5000, 50000),
    ];
    let ways = vec![
        way(10, vec![1, 2], vec!["highway=residential"]),
        way(11, vec![3, 4], vec!["highway=residential"]),
    ];
    let m = scrape_osm(nodes, ways, None);
    let g = Graph::new(&m);
    let filter = NetworkFilter { selection: NetworkFilterType::Everything, ignore_deadends: false };
    let comps = m.find_connected_components(&g, &filter);
    assert_eq!(comps.len(), 2);
    // Longest first: way 10 is 20 units, way 11 is 5 units.
    assert_eq!(comps[0].0, vec![10]);
    assert_eq!(comps[0].1, 20000);
    assert_eq!(comps[1].0, vec![11]);
    assert_eq!(comps[1].1, 5000);
}

#[test]
fn components_honor_dead_end_suppression() {
    // With dead-end suppression on, the whole 8-unit chain disappears from
    // the component report too.
    let m = chain_model(8000);
    let g = Graph::new(&m);
    let filter = NetworkFilter { selection: NetworkFilterType::RouteableNetwork, ignore_deadends: true };
    let comps = m.find_connected_components(&g, &filter);
    assert_eq!(comps.len(), 0);
}

#[test]
fn export_suppresses_chains_and_short_components() {
    // A 150-unit road survives both stages; an isolated 50-unit road
    // survives the chain stage but falls to the 100-unit component minimum.
    let nodes = vec![
        node(1, 0, 0),
        node(2, 75000, 0),
        node(3, 150000, 0),
        node(4, 0, 500000),
        node(5, 50000, 500000),
    ];
    let ways = vec![
        way(10, vec![1, 2], vec!["highway=residential"]),
        way(11, vec![2, 3], vec!["highway=residential"]),
        way(12, vec![4, 5], vec!["highway=residential"]),
    ];
    let m = scrape_osm(nodes, ways, None);
    let g = Graph::new(&m);
    let filter = NetworkFilter { selection: NetworkFilterType::RouteableNetwork, ignore_deadends: true };
    let kept = m.export_network(&g, &filter);
    for (k, e) in g.edges.iter().enumerate() {
        if e.osm_way == 12 {
            assert!(!kept[k]);
        } else {
            assert!(kept[k]);
        }
    }
}

#[test]
fn total_length_by_kind_is_exact() {
    let m = chain_model(8000);
    assert_eq!(m.total_length_for_kind(speedwalk::classify::Kind::RoadUnknown), 8000);
    assert_eq!(m.total_length_for_kind(speedwalk::classify::Kind::Sidewalk), 0);
}

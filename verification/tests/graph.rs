use speedwalk::graph::Graph;
use speedwalk::scrape::{scrape_osm, InputNode, InputWay};
use speedwalk::tags::Tags;

fn node(id: i64, x: i64, y: i64) -> InputNode {
    InputNode { id, x, y, lon: x, lat: y, tags: Tags::empty(), version: 1 }
}

fn way(id: i64, node_ids: Vec<i64>, tags: Vec<&str>) -> InputWay {
    InputWay { id, node_ids, tags: Tags::new_from_pairs(&tags), version: 1 }
}

#[test]
fn graph_cuts_ways_at_shared_nodes() {
    let nodes = vec![
        node(1, 0, 0),
        node(2, 5000, 0),
        node(3, 10000, 0),
        node(4, 5000, 5000),
    ];
    let ways = vec![
        way(10, vec![1, 2, 3], vec!["highway=residential"]),
        way(11, vec![4, 2], vec!["highway=residential"]),
    ];
    let m = scrape_osm(nodes, ways, None);
    let g = Graph::new(&m);

    // Way 10 splits at the shared node 2; way 11 is one edge.
    assert_eq!(g.edges.len(), 3);
    let of_10: Vec<&speedwalk::graph::Edge> =
        g.edges.iter().filter(|e| e.osm_way == 10).collect();
    assert_eq!(of_10.len(), 2);
    assert_eq!(of_10[0].node_ids, vec![1, 2]);
    assert_eq!(of_10[1].node_ids, vec![2, 3]);

    // Graph reconstruction: concatenating the polylines of way 10's edges
    // in order reproduces the way's polyline exactly.
    let mut rebuilt = of_10[0].linestring.clone();
    rebuilt.extend(of_10[1].linestring[1..].iter().cloned());
    let original = &m.derived_ways.get(10).unwrap().linestring;
    assert_eq!(&rebuilt, original);

    // One intersection per boundary node, unique by node.
    let mut seen: Vec<i64> = g.intersections.iter().map(|i| i.osm_node).collect();
    seen.sort();
    assert_eq!(seen, vec![1, 2, 3, 4]);
}

#[test]
fn short_ways_contribute_no_edges() {
    let nodes = vec![node(1, 0, 0)];
    let ways = vec![way(10, vec![1], vec!["highway=residential"])];
    let m = scrape_osm(nodes, ways, None);
    let g = Graph::new(&m);
    assert_eq!(g.edges.len(), 0);
    assert_eq!(g.intersections.len(), 0);
}

#[test]
fn incidence_lists_hold_the_incident_edges() {
    let nodes = vec![node(1, 0, 0), node(2, 5000, 0), node(3, 10000, 0)];
    let ways = vec![
        way(10, vec![1, 2], vec!["highway=residential"]),
        way(11, vec![2, 3], vec!["highway=residential"]),
    ];
    let m = scrape_osm(nodes, ways, None);
    let g = Graph::new(&m);
    let middle = g.intersections.iter().find(|i| i.osm_node == 2).unwrap();
    assert_eq!(middle.edges.len(), 2);
    let end = g.intersections.iter().find(|i| i.osm_node == 1).unwrap();
    assert_eq!(end.edges.len(), 1);
}

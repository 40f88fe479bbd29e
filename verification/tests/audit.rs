use speedwalk::audit::{count_dual_splits, junction_complete, Options};
use speedwalk::graph::Graph;
use speedwalk::scrape::{scrape_osm, InputNode, InputWay};
use speedwalk::tags::Tags;

fn node(id: i64, x: i64, y: i64, tags: Vec<&str>) -> InputNode {
    InputNode { id, x, y, lon: x, lat: y, tags: Tags::new_from_pairs(&tags), version: 1 }
}

fn way(id: i64, node_ids: Vec<i64>, tags: Vec<&str>) -> InputWay {
    InputWay { id, node_ids, tags: Tags::new_from_pairs(&tags), version: 1 }
}

#[test]
fn completeness_bound_is_exact_at_the_boundary() {
    // n arms, k splits, r roundabout arms: complete iff
    // crossings + explicit_non_crossings >= n - k - r.
    assert!(junction_complete(2, 1, 4, 1, 0));
    assert!(!junction_complete(2, 0, 4, 1, 0));
    assert!(junction_complete(0, 0, 3, 2, 1));
    assert!(!junction_complete(2, 0, 4, 0, 1));
    assert!(junction_complete(3, 0, 4, 0, 1));
}

#[test]
fn dual_carriageway_splits_pair_opposite_oneways() {
    // Two same-named one-way arms, opposite directions, bearings far from
    // exact reversal: one split.
    let arms = vec![
        ("High Street".to_string(), true, 0),
        ("High Street".to_string(), false, 90),
    ];
    assert_eq!(count_dual_splits(&arms), 1);

    // Same direction: no split.
    let arms2 = vec![
        ("High Street".to_string(), true, 0),
        ("High Street".to_string(), true, 90),
    ];
    assert_eq!(count_dual_splits(&arms2), 0);

    // Different names: no split.
    let arms3 = vec![
        ("High Street".to_string(), true, 0),
        ("Low Street".to_string(), false, 90),
    ];
    assert_eq!(count_dual_splits(&arms3), 0);

    // Bearings within 45 degrees of each other: no split.
    let arms4 = vec![
        ("High Street".to_string(), true, 0),
        ("High Street".to_string(), false, -20),
    ];
    assert_eq!(count_dual_splits(&arms4), 0);
}

#[test]
fn four_way_junction_is_audited() {
    let nodes = vec![
        node(100, 0, 0, vec![]),
        node(1, 20000, 0, vec![]),
        node(2, -20000, 0, vec![]),
        node(3, 0, 20000, vec![]),
        node(4, 0, -20000, vec![]),
        node(5, 10000, 0, vec!["highway=crossing"]),
    ];
    let ways = vec![
        way(10, vec![100, 5, 1], vec!["highway=residential"]),
        way(11, vec![100, 2], vec!["highway=residential"]),
        way(12, vec![100, 3], vec!["highway=residential"]),
        way(13, vec![100, 4], vec!["highway=residential"]),
    ];
    let m = scrape_osm(nodes, ways, None);
    let g = Graph::new(&m);
    let options = Options {
        only_major_roads: false,
        ignore_utility_roads: true,
        ignore_cycleways: true,
        ignore_footways: true,
        ignore_roundabouts: true,
        max_distance: 50000,
    };
    let bearings = vec![0; g.edges.len()];
    let junctions = m.find_junctions(&g, &options, &bearings);
    assert_eq!(junctions.len(), 1);
    let j = &junctions[0];
    assert_eq!(j.osm_node, 100);
    assert_eq!(j.arms.len(), 4);
    assert_eq!(j.crossings, vec![5]);
    assert_eq!(j.explicit_non_crossings.len(), 0);
    assert_eq!(j.number_dual_carriageway_splits, 0);
    // One crossing satisfies one of four arms: not complete.
    assert!(!j.complete);
}

#[test]
fn explicit_no_crossing_satisfies_an_arm() {
    let nodes = vec![
        node(100, 0, 0, vec![]),
        node(1, 8000, 0, vec![]),
        node(2, -8000, 0, vec![]),
        node(3, 0, 8000, vec![]),
        node(5, 4000, 0, vec!["crossing=no"]),
        node(6, -4000, 0, vec!["highway=crossing"]),
        node(7, 0, 4000, vec!["highway=crossing"]),
    ];
    let ways = vec![
        way(10, vec![100, 5, 1], vec!["highway=residential"]),
        way(11, vec![100, 6, 2], vec!["highway=residential"]),
        way(12, vec![100, 7, 3], vec!["highway=residential"]),
    ];
    let m = scrape_osm(nodes, ways, None);
    let g = Graph::new(&m);
    let options = Options {
        only_major_roads: false,
        ignore_utility_roads: false,
        ignore_cycleways: false,
        ignore_footways: false,
        ignore_roundabouts: false,
        max_distance: 50000,
    };
    let bearings = vec![0; g.edges.len()];
    let junctions = m.find_junctions(&g, &options, &bearings);
    assert_eq!(junctions.len(), 1);
    let j = &junctions[0];
    assert_eq!(j.arms.len(), 3);
    assert_eq!(j.crossings, vec![6, 7]);
    assert_eq!(j.explicit_non_crossings, vec![5]);
    // All three arms satisfied: complete.
    assert!(j.complete);
}

#[test]
fn slice_way_stops_at_the_distance_budget() {
    let nodes = vec![
        node(1, 0, 0, vec![]),
        node(2, 4000, 0, vec![]),
        node(3, 8000, 0, vec![]),
        node(4, 12000, 0, vec![]),
    ];
    let ways = vec![way(10, vec![1, 2, 3, 4], vec!["highway=residential"])];
    let m = scrape_osm(nodes, ways, None);
    assert_eq!(m.slice_way(10, 1, true, 9000), vec![1, 2, 3]);
    assert_eq!(m.slice_way(10, 1, true, 3000), vec![1]);
    assert_eq!(m.slice_way(10, 4, false, 4000), vec![4, 3]);
    assert_eq!(m.slice_way(10, 99, true, 4000), Vec::<i64>::new());
}

use speedwalk::edits::{CmdEvent, UserCmd};
use speedwalk::geomath::{isqrt, nearly_parallel, polyline_length, segment_length, shortest_rotation};
use speedwalk::osc::{push_coord, push_i64, union_keys};
use speedwalk::scrape::{scrape_osm, InputNode, InputWay};
use speedwalk::tags::Tags;

fn node(id: i64, x: i64, y: i64) -> InputNode {
    InputNode { id, x, y, lon: x, lat: y, tags: Tags::empty(), version: 1 }
}

fn way(id: i64, node_ids: Vec<i64>, tags: Vec<&str>) -> InputWay {
    InputWay { id, node_ids, tags: Tags::new_from_pairs(&tags), version: 1 }
}

#[test]
fn tag_map_operations() {
    let mut t = Tags::empty();
    t.insert("highway", "residential");
    t.insert("name", "High Street");
    assert!(t.has("highway"));
    assert!(t.is("name", "High Street"));
    t.insert("highway", "service");
    assert!(t.is("highway", "service"));
    assert_eq!(t.len(), 2);
    t.remove("name");
    assert!(!t.has("name"));
    assert_eq!(t.len(), 1);
    assert!(t.is_any("highway", &["track", "service"]));
    assert!(!t.is_any("highway", &["track", "footway"]));
    assert!(t.any_key_starts_with("high"));
    assert!(!t.any_key_starts_with("sidewalk"));
}

#[test]
fn integer_square_roots_are_exact() {
    assert_eq!(isqrt(0), 0);
    assert_eq!(isqrt(1), 1);
    assert_eq!(isqrt(3), 1);
    assert_eq!(isqrt(4), 2);
    assert_eq!(isqrt(99), 9);
    assert_eq!(isqrt(100), 10);
    assert_eq!(isqrt(u64::MAX), 0xffff_ffff);
}

#[test]
fn lengths_are_euclidean_rounded_down() {
    assert_eq!(segment_length((0, 0), (3000, 4000)), 5000);
    assert_eq!(segment_length((0, 0), (1000, 1000)), 1414);
    let line = vec![(0, 0), (3000, 4000), (3000, 5000)];
    assert_eq!(polyline_length(&line), 6000);
}

#[test]
fn rotations_take_the_shortest_turn() {
    assert_eq!(shortest_rotation(90, 0), 90);
    assert_eq!(shortest_rotation(0, 90), -90);
    assert_eq!(shortest_rotation(-170, 170), 20);
    assert!(nearly_parallel(0, 5, 10));
    assert!(nearly_parallel(0, 175, 10));
    assert!(!nearly_parallel(0, 90, 10));
}

#[test]
fn decimal_rendering_is_exact() {
    let mut s = String::new();
    push_i64(&mut s, 0);
    s.push(' ');
    push_i64(&mut s, -1);
    s.push(' ');
    push_i64(&mut s, 1234567);
    assert_eq!(s, "0 -1 1234567");

    let mut c = String::new();
    push_coord(&mut c, 12345678);
    c.push(' ');
    push_coord(&mut c, -7);
    assert_eq!(c, "1.2345678 -0.0000007");
}

#[test]
fn union_keys_merges_both_stores() {
    let nodes = vec![node(5, 0, 0), node(1, 1000, 0), node(9, 2000, 0)];
    let ways = vec![
        way(3, vec![5, 1], vec!["highway=residential"]),
        way(7, vec![1, 9], vec!["highway=residential"]),
    ];
    let m = scrape_osm(nodes, ways, None);
    let keys = union_keys(&m.derived_nodes, &m.derived_ways);
    assert_eq!(keys, vec![1, 3, 5, 7, 9]);
}

#[test]
fn undo_on_an_empty_log_only_recomputes() {
    let nodes = vec![node(1, 0, 0), node(2, 1000, 0)];
    let ways = vec![way(10, vec![1, 2], vec!["highway=residential"])];
    let mut m = scrape_osm(nodes, ways, None);
    m.edit_undo();
    assert_eq!(m.edits.user_commands.len(), 0);
    assert_eq!(m.derived_nodes.len(), 2);
}

#[test]
fn ingestion_prunes_unreferenced_nodes_and_bad_ids() {
    let nodes = vec![node(1, 0, 0), node(2, 1000, 0), node(3, 9000, 9000), node(-5, 0, 0)];
    let ways = vec![
        way(10, vec![1, 2], vec!["highway=residential"]),
        // An area, and a way with an unresolved reference: both dropped.
        way(11, vec![1, 2], vec!["highway=pedestrian", "area=yes"]),
        way(12, vec![1, 99], vec!["highway=residential"]),
    ];
    let m = scrape_osm(nodes, ways, None);
    assert_eq!(m.original_ways.len(), 1);
    assert!(m.original_ways.get(10).is_some());
    // Node 3 is on no stored way; the negative id never enters.
    assert_eq!(m.original_nodes.len(), 2);
    assert!(m.original_nodes.get(3).is_none());
    assert!(m.original_nodes.get(-5).is_none());
}

#[test]
fn parallel_sidewalk_candidates_flag_plain_roads() {
    let nodes = vec![node(1, 0, 0), node(2, 10000, 0), node(3, 0, 5000), node(4, 10000, 5000)];
    let ways = vec![
        way(10, vec![1, 2], vec!["highway=residential"]),
        way(30, vec![3, 4], vec!["highway=footway", "footway=sidewalk"]),
    ];
    let mut m = scrape_osm(nodes, ways, None);
    let candidates = vec![
        speedwalk::problems::ParallelCandidate { road: 10, sidewalk: 30, angle_diff: 3, blocked: false },
        speedwalk::problems::ParallelCandidate { road: 30, sidewalk: 30, angle_diff: 3, blocked: false },
        speedwalk::problems::ParallelCandidate { road: 10, sidewalk: 30, angle_diff: 40, blocked: false },
    ];
    m.add_parallel_sidewalk_problems(&candidates);
    // Only the first candidate flags: way 30 is no road, and the third is
    // not parallel enough.
    assert_eq!(m.derived_ways.get(10).unwrap().problems.len(), 1);
    assert_eq!(
        m.derived_ways.get(10).unwrap().problems[0].note,
        "possible separate sidewalk near way without it tagged"
    );
    assert_eq!(m.derived_ways.get(30).unwrap().problems.len(), 0);
}

#[test]
fn problem_detector_flags_missing_crossing_nodes() {
    // A crossing-tagged footway whose end node sits on a road without being
    // tagged as a crossing.
    let nodes = vec![
        node(1, 0, 0),
        node(2, 10000, 0),
        node(3, 5000, 0),
        node(4, 5000, 5000),
    ];
    let ways = vec![
        way(10, vec![1, 3, 2], vec!["highway=primary"]),
        way(20, vec![3, 4], vec!["highway=footway", "footway=crossing"]),
    ];
    let m = scrape_osm(nodes, ways, None);
    let flagged = m.derived_nodes.get(3).unwrap();
    assert_eq!(flagged.problems.len(), 1);
    assert_eq!(flagged.problems[0].note, "missing crossing node");
    // The footway itself carries footway=crossing, so check (b) stays quiet.
    assert_eq!(m.derived_ways.get(20).unwrap().problems.len(), 0);
}

#[test]
fn problem_detector_flags_untagged_crossing_footways() {
    // A plain footway through a crossing node on a severance.
    let nodes = vec![
        node(1, 0, 0),
        node(2, 10000, 0),
        node(4, 5000, 5000),
    ];
    let mut crossing = node(3, 5000, 0);
    crossing.tags = Tags::new_from_pairs(&vec!["highway=crossing"]);
    let nodes = {
        let mut all = nodes;
        all.push(crossing);
        all
    };
    let ways = vec![
        way(10, vec![1, 3, 2], vec!["highway=primary"]),
        way(20, vec![3, 4], vec!["highway=footway"]),
    ];
    let m = scrape_osm(nodes, ways, None);
    let w = m.derived_ways.get(20).unwrap();
    assert_eq!(w.problems.len(), 1);
    assert_eq!(w.problems[0].note, "missing footway=crossing");
    assert_eq!(w.problems[0].details, Some(vec![(5000, 0)]));
}

#[test]
fn batch_commands_swallow_individual_failures() {
    let mut m = scrape_osm(vec![node(1, 0, 0)], vec![], None);
    let r = m.apply_cmd(UserCmd::ConnectAllCrossings, &CmdEvent::Geometry(None));
    assert_eq!(r, Ok(()));
    assert_eq!(m.edits.user_commands.len(), 1);
}

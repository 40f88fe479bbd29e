use speedwalk::classify::Kind;
use speedwalk::crossings::{first_hit, pick_far_side, CrossingHit};
use speedwalk::edits::{CmdEvent, CreateNewGeometry, PtGeo, Side, TrimPolicy, UserCmd};
use speedwalk::geometry::{
    accept_way_hits, snap_endpoint, stop_at_sidewalks_bounds, trim_span, NewSidewalk,
};
use speedwalk::scrape::{scrape_osm, InputNode, InputWay};
use speedwalk::store::Speedwalk;
use speedwalk::tags::Tags;

fn node(id: i64, x: i64, y: i64, tags: Vec<&str>) -> InputNode {
    InputNode { id, x, y, lon: x, lat: y, tags: Tags::new_from_pairs(&tags), version: 1 }
}

fn way(id: i64, node_ids: Vec<i64>, tags: Vec<&str>) -> InputWay {
    InputWay { id, node_ids, tags: Tags::new_from_pairs(&tags), version: 1 }
}

fn pt(x: i64, y: i64) -> PtGeo {
    PtGeo { x, y, lon: x, lat: y }
}

fn candidate(ways: Vec<i64>) -> NewSidewalk {
    NewSidewalk {
        linestring: vec![pt(0, 0), pt(1000, 0)],
        // A point on each named way's first segment, splicing at index 1.
        crossing_points: ways.into_iter().map(|w| (w, pt(2000, 0), 1)).collect(),
        connect_start_node: None,
        connect_end_node: None,
    }
}

fn splice_model() -> Speedwalk {
    // Three parallel roads the candidates can cross, at y = 0.
    let nodes = vec![
        node(1, 0, 0, vec![]),
        node(2, 4000, 0, vec![]),
        node(3, 0, 100, vec![]),
        node(4, 4000, 100, vec![]),
        node(5, 0, -100, vec![]),
        node(6, 4000, -100, vec![]),
    ];
    let ways = vec![
        way(7, vec![1, 2], vec!["highway=residential"]),
        way(8, vec![3, 4], vec!["highway=residential"]),
        way(9, vec![5, 6], vec!["highway=residential"]),
    ];
    scrape_osm(nodes, ways, None)
}

#[test]
fn duplicate_way_references_reject_the_whole_batch() {
    let m = splice_model();
    let candidates = vec![candidate(vec![7]), candidate(vec![7])];
    let r = m.make_sidewalks(10, Side::Left, 5000, TrimPolicy::StopAtSidewalks, candidates);
    assert_eq!(r.len(), 0);

    let within = vec![candidate(vec![7, 7])];
    let r2 = m.make_sidewalks(10, Side::Left, 5000, TrimPolicy::StopAtSidewalks, within);
    assert_eq!(r2.len(), 0);
}

#[test]
fn distinct_way_references_pass_through() {
    let m = splice_model();
    let candidates = vec![candidate(vec![7]), candidate(vec![8, 9])];
    let r = m.make_sidewalks(10, Side::Left, 5000, TrimPolicy::StopAtSidewalks, candidates);
    assert_eq!(r.len(), 2);
    assert_eq!(r[0].crossing_points.len(), 1);
    assert_eq!(r[1].crossing_points.len(), 2);
}

#[test]
fn invalid_splices_reject_the_whole_batch() {
    let m = splice_model();
    // An absent way.
    let missing = vec![candidate(vec![99])];
    assert_eq!(
        m.make_sidewalks(10, Side::Left, 5000, TrimPolicy::StopAtSidewalks, missing).len(),
        0
    );
    // An out-of-range splice index.
    let bad_idx = vec![NewSidewalk {
        linestring: vec![pt(0, 0), pt(1000, 0)],
        crossing_points: vec![(7, pt(2000, 0), 5)],
        connect_start_node: None,
        connect_end_node: None,
    }];
    assert_eq!(
        m.make_sidewalks(10, Side::Left, 5000, TrimPolicy::StopAtSidewalks, bad_idx).len(),
        0
    );
    // A point nowhere near the segment it claims to splice.
    let far = vec![NewSidewalk {
        linestring: vec![pt(0, 0), pt(1000, 0)],
        crossing_points: vec![(7, pt(2000, 50000), 1)],
        connect_start_node: None,
        connect_end_node: None,
    }];
    assert_eq!(
        m.make_sidewalks(10, Side::Left, 5000, TrimPolicy::StopAtSidewalks, far).len(),
        0
    );
}

#[test]
fn synthesis_decisions_are_exact() {
    // One hit per way passes; a repeated way is ambiguous.
    let ok = vec![(7, pt(0, 0), 1), (8, pt(0, 0), 1)];
    assert!(accept_way_hits(&ok).is_some());
    let dup = vec![(7, pt(0, 0), 1), (7, pt(100, 0), 2)];
    assert!(accept_way_hits(&dup).is_none());

    // Stop at sidewalks: a crossing in the first fifth moves the start, one
    // in the last fifth moves the end.
    assert_eq!(stop_at_sidewalks_bounds(10000, Some(1500), Some(9000)), (1500, 9000));
    assert_eq!(stop_at_sidewalks_bounds(10000, Some(5000), Some(5000)), (0, 10000));
    assert_eq!(stop_at_sidewalks_bounds(10000, None, None), (0, 10000));

    // Trim spans clamp to the curve.
    assert_eq!(trim_span(10000, 5000, 2000), (3000, 7000));
    assert_eq!(trim_span(10000, 1000, 2000), (0, 3000));
    assert_eq!(trim_span(10000, 9500, 2000), (7500, 10000));

    // Endpoint snapping within one unit.
    assert_eq!(snap_endpoint(Some((42, 999999))), Some(42));
    assert_eq!(snap_endpoint(Some((42, 1000001))), None);
    assert_eq!(snap_endpoint(None), None);
}

fn crossing_model() -> Speedwalk {
    let nodes = vec![
        node(1, -10000, 0, vec![]),
        node(2, 0, 0, vec!["highway=crossing", "crossing=marked"]),
        node(3, 10000, 0, vec![]),
        node(4, -10000, 5000, vec![]),
        node(5, 10000, 5000, vec![]),
        node(6, -10000, -5000, vec![]),
        node(7, 10000, -5000, vec![]),
    ];
    let ways = vec![
        way(20, vec![1, 2, 3], vec!["highway=primary"]),
        way(30, vec![4, 5], vec!["highway=footway", "footway=sidewalk"]),
        way(31, vec![6, 7], vec!["highway=footway", "footway=sidewalk"]),
    ];
    scrape_osm(nodes, ways, None)
}

#[test]
fn crossing_connector_builds_a_three_point_way() {
    let mut m = crossing_model();
    // The crossing node sits on exactly one road way.
    assert!(m.needs_crossing(2, None));

    // The two sidewalks sit at fixed perpendicular offsets of five units.
    let hit1 = CrossingHit { sidewalk: 30, point: pt(0, 5000), insert_idx: 1 };
    let hit2 = CrossingHit { sidewalk: 31, point: pt(0, -5000), insert_idx: 1 };
    let g = m.connect_crossing(2, hit1, hit2).unwrap();
    assert_eq!(g.new_objects.len(), 1);
    assert_eq!(g.new_objects[0].0.len(), 3);

    let r = m.apply_cmd(UserCmd::ConnectCrossing(2), &CmdEvent::Geometry(Some(g)));
    assert_eq!(r, Ok(()));
    m.after_edit();

    // One new three-point crossing way, its endpoints exactly on the two
    // sidewalks (well within a hundredth of a unit).
    let new_way = m.derived_ways.get(-4).unwrap();
    assert_eq!(new_way.kind, Kind::Crossing);
    assert_eq!(new_way.linestring.len(), 3);
    assert_eq!(new_way.linestring[0], (0, 5000));
    assert_eq!(new_way.linestring[1], (0, 0));
    assert_eq!(new_way.linestring[2], (0, -5000));
    assert!(new_way.tags.is("footway", "crossing"));
    assert!(new_way.tags.is("crossing", "marked"));

    // The endpoints were spliced into both sidewalks.
    assert_eq!(m.derived_ways.get(30).unwrap().node_ids.len(), 3);
    assert_eq!(m.derived_ways.get(31).unwrap().node_ids.len(), 3);
    assert_eq!(m.derived_ways.get(30).unwrap().linestring[1], (0, 5000));
}

#[test]
fn crossing_strategies_chain_in_order() {
    let h1 = CrossingHit { sidewalk: 30, point: pt(0, 5000), insert_idx: 1 };
    let h2 = CrossingHit { sidewalk: 31, point: pt(0, -5000), insert_idx: 1 };
    assert_eq!(first_hit(Some(h1), Some(h2)), Some(h1));
    assert_eq!(first_hit(None, Some(h2)), Some(h2));
    assert_eq!(first_hit(None, None), None);
    // The half-crossing choice takes the side farther from the existing
    // footway.
    assert_eq!(pick_far_side(h1, 100, h2, 900), h2);
    assert_eq!(pick_far_side(h1, 900, h2, 100), h1);
}

#[test]
fn degenerate_crossing_pair_is_rejected() {
    let m = crossing_model();
    let hit1 = CrossingHit { sidewalk: 30, point: pt(0, 400), insert_idx: 1 };
    let hit2 = CrossingHit { sidewalk: 31, point: pt(0, -400), insert_idx: 1 };
    assert!(m.connect_crossing(2, hit1, hit2).is_none());
}

#[test]
fn four_way_intersection_round_trip() {
    // One residential arm with no sidewalk tags, three arms tagged separate.
    let nodes = vec![
        node(100, 0, 0, vec![]),
        node(1, 20000, 0, vec![]),
        node(2, -20000, 0, vec![]),
        node(3, 0, 20000, vec![]),
        node(4, 0, -20000, vec![]),
    ];
    let ways = vec![
        way(40, vec![100, 1], vec!["highway=residential"]),
        way(41, vec![100, 2], vec!["highway=residential", "sidewalk:both=separate"]),
        way(42, vec![100, 3], vec!["highway=residential", "sidewalk:both=separate"]),
        way(43, vec![100, 4], vec!["highway=residential", "sidewalk:both=separate"]),
    ];
    let mut m = scrape_osm(nodes, ways, None);
    assert_eq!(m.derived_ways.get(40).unwrap().kind, Kind::RoadUnknown);
    assert_eq!(m.derived_ways.get(41).unwrap().kind, Kind::RoadWithSeparate);
    assert_eq!(m.derived_ways.get(42).unwrap().kind, Kind::RoadWithSeparate);
    assert_eq!(m.derived_ways.get(43).unwrap().kind, Kind::RoadWithSeparate);

    // The synthesis engine offsets only the untagged arm: one curve per
    // side of way 40, none for the separately tagged arms.
    let left = (vec![pt(2000, 2000), pt(18000, 2000)], Tags::new_from_pairs(&vec![
        "highway=footway",
        "footway=sidewalk",
    ]));
    let right = (vec![pt(2000, -2000), pt(18000, -2000)], Tags::new_from_pairs(&vec![
        "highway=footway",
        "footway=sidewalk",
    ]));
    let g = CreateNewGeometry {
        new_objects: vec![left, right],
        new_kind: Kind::Sidewalk,
        modify_existing: vec![],
    };
    let r = m.apply_cmd(UserCmd::MakeAllSidewalks(false), &CmdEvent::Geometry(Some(g)));
    assert_eq!(r, Ok(()));
    m.after_edit();

    let mut new_sidewalks = 0;
    let mut i = 0;
    while i < m.derived_ways.len() {
        if m.derived_ways.key_at(i) < 0 {
            assert_eq!(m.derived_ways.value_at(i).kind, Kind::Sidewalk);
            new_sidewalks += 1;
        }
        i += 1;
    }
    assert_eq!(new_sidewalks, 2);
}

use speedwalk::classify::Kind;
use speedwalk::edits::{CmdEvent, EditError, PtGeo, UserCmd};
use speedwalk::scrape::{scrape_osm, InputNode, InputWay};
use speedwalk::store::Speedwalk;
use speedwalk::tags::Tags;

fn node(id: i64, x: i64, y: i64, tags: Vec<&str>) -> InputNode {
    InputNode {
        id,
        x,
        y,
        lon: x,
        lat: y,
        tags: Tags::new_from_pairs(&tags),
        version: 1,
    }
}

fn way(id: i64, node_ids: Vec<i64>, tags: Vec<&str>) -> InputWay {
    InputWay {
        id,
        node_ids,
        tags: Tags::new_from_pairs(&tags),
        version: 1,
    }
}

fn small_model() -> Speedwalk {
    let nodes = vec![
        node(1, 0, 0, vec![]),
        node(2, 5000, 0, vec![]),
        node(3, 10000, 0, vec![]),
    ];
    let ways = vec![way(10, vec![1, 2, 3], vec!["highway=residential", "sidewalk:left=yes"])];
    scrape_osm(nodes, ways, Some(7))
}

#[test]
fn set_tags_replaces_sidewalk_tags() {
    let mut m = small_model();
    let cmd = UserCmd::SetTags(10, vec![("sidewalk".to_string(), "both".to_string())]);
    let r = m.apply_cmd(cmd, &CmdEvent::Nothing);
    assert!(r.is_ok());
    m.after_edit();
    let w = m.derived_ways.get(10).unwrap();
    assert!(w.tags.is("sidewalk", "both"));
    assert!(!w.tags.has("sidewalk:left"));
    assert_eq!(w.kind, Kind::RoadWithTags);
    assert!(w.modified);
}

#[test]
fn recompute_is_idempotent() {
    let mut m = small_model();
    let cmd = UserCmd::SetTags(10, vec![("sidewalk".to_string(), "no".to_string())]);
    m.apply_cmd(cmd, &CmdEvent::Nothing).unwrap();
    m.after_edit();
    let tags_once: Vec<(String, String)> = snapshot_way_tags(&m, 10);
    let nodes_once = m.derived_nodes.len();
    m.after_edit();
    let tags_twice: Vec<(String, String)> = snapshot_way_tags(&m, 10);
    assert_eq!(tags_once, tags_twice);
    assert_eq!(nodes_once, m.derived_nodes.len());
    assert_eq!(m.derived_ways.get(10).unwrap().kind, Kind::RoadWithoutSidewalksExplicit);
}

fn snapshot_way_tags(m: &Speedwalk, id: i64) -> Vec<(String, String)> {
    let w = m.derived_ways.get(id).unwrap();
    let mut out = Vec::new();
    let n = w.tags.len();
    let mut i = 0;
    while i < n {
        out.push((w.tags.key_at(i).clone(), w.tags.value_at(i).clone()));
        i += 1;
    }
    out
}

#[test]
fn undo_is_inverse_of_last_command() {
    let mut a = small_model();
    a.apply_cmd(
        UserCmd::SetTags(10, vec![("sidewalk".to_string(), "both".to_string())]),
        &CmdEvent::Nothing,
    )
    .unwrap();
    a.after_edit();
    a.apply_cmd(UserCmd::AssumeTags(true), &CmdEvent::Nothing).unwrap();
    a.after_edit();
    a.apply_cmd(
        UserCmd::SetTags(10, vec![("sidewalk".to_string(), "separate".to_string())]),
        &CmdEvent::Nothing,
    )
    .unwrap();
    a.after_edit();
    a.edit_undo();

    let mut b = small_model();
    b.apply_cmd(
        UserCmd::SetTags(10, vec![("sidewalk".to_string(), "both".to_string())]),
        &CmdEvent::Nothing,
    )
    .unwrap();
    b.after_edit();
    b.apply_cmd(UserCmd::AssumeTags(true), &CmdEvent::Nothing).unwrap();
    b.after_edit();

    assert_eq!(snapshot_way_tags(&a, 10), snapshot_way_tags(&b, 10));
    assert_eq!(a.derived_ways.get(10).unwrap().kind, b.derived_ways.get(10).unwrap().kind);
    assert_eq!(a.edits.user_commands.len(), 2);
}

#[test]
fn clear_empties_the_log() {
    let mut m = small_model();
    m.apply_cmd(
        UserCmd::SetTags(10, vec![("sidewalk".to_string(), "both".to_string())]),
        &CmdEvent::Nothing,
    )
    .unwrap();
    m.after_edit();
    m.edit_clear();
    assert_eq!(m.edits.user_commands.len(), 0);
    let w = m.derived_ways.get(10).unwrap();
    assert!(w.tags.is("sidewalk:left", "yes"));
}

#[test]
fn unknown_way_is_an_error_but_still_logged() {
    let mut m = small_model();
    let r = m.apply_cmd(
        UserCmd::SetTags(99, vec![("sidewalk".to_string(), "both".to_string())]),
        &CmdEvent::Nothing,
    );
    assert_eq!(r, Err(EditError::UnknownWay));
    assert_eq!(m.edits.user_commands.len(), 1);
    assert_eq!(m.edits.consequences.len(), 1);
}

#[test]
fn mismatched_event_is_rejected() {
    let mut m = small_model();
    let r = m.apply_cmd(
        UserCmd::MakeSidewalk(10, speedwalk::edits::Side::Left, 5000, speedwalk::edits::TrimPolicy::StopAtSidewalks),
        &CmdEvent::Nothing,
    );
    assert_eq!(r, Err(EditError::BadEvent));
}

#[test]
fn failed_synthesis_is_surfaced_for_single_targets() {
    let mut m = small_model();
    let r = m.apply_cmd(
        UserCmd::MakeSidewalk(10, speedwalk::edits::Side::Left, 5000, speedwalk::edits::TrimPolicy::StopAtSidewalks),
        &CmdEvent::Geometry(None),
    );
    assert_eq!(r, Err(EditError::SynthesisFailed));
    let r2 = m.apply_cmd(UserCmd::MakeAllSidewalks(false), &CmdEvent::Geometry(None));
    assert_eq!(r2, Ok(()));
}

#[test]
fn add_crossing_without_road_is_an_error() {
    let mut m = small_model();
    let pt = PtGeo { x: 2500, y: 100, lon: 2500, lat: 100 };
    let r = m.apply_cmd(
        UserCmd::AddCrossing(pt, Tags::new_from_pairs(&vec!["highway=crossing"])),
        &CmdEvent::CrossingTarget(None),
    );
    assert_eq!(r, Err(EditError::NoRoadForCrossing));
}

#[test]
fn add_crossing_splices_a_new_node() {
    let mut m = small_model();
    let pt = PtGeo { x: 2500, y: 0, lon: 2500, lat: 0 };
    let r = m.apply_cmd(
        UserCmd::AddCrossing(pt, Tags::new_from_pairs(&vec!["highway=crossing"])),
        &CmdEvent::CrossingTarget(Some((10, 1))),
    );
    assert_eq!(r, Ok(()));
    m.after_edit();
    let w = m.derived_ways.get(10).unwrap();
    assert_eq!(w.node_ids.len(), 4);
    assert_eq!(w.node_ids[1], -1);
    let nd = m.derived_nodes.get(-1).unwrap();
    assert_eq!((nd.x, nd.y), (2500, 0));
    assert!(nd.is_crossing());
    assert!(nd.modified);
    assert_eq!(w.linestring[1], (2500, 0));
}

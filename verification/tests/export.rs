use speedwalk::edits::{CmdEvent, PtGeo, UserCmd};
use speedwalk::osc::escape;
use speedwalk::scrape::{scrape_osm, InputNode, InputWay};
use speedwalk::tags::Tags;

fn node(id: i64, x: i64, y: i64) -> InputNode {
    InputNode { id, x, y, lon: x, lat: y, tags: Tags::empty(), version: 1 }
}

fn way(id: i64, node_ids: Vec<i64>, tags: Vec<&str>) -> InputWay {
    InputWay { id, node_ids, tags: Tags::new_from_pairs(&tags), version: 1 }
}

#[test]
fn escape_handles_every_reserved_character() {
    assert_eq!(escape("a<b&c>\"d'"), "a&lt;b&amp;c&gt;&quot;d&apos;");
    assert_eq!(escape("plain"), "plain");
    assert_eq!(escape(""), "");
}

#[test]
fn empty_log_renders_an_empty_change_document() {
    let m = scrape_osm(vec![node(1, 0, 0)], vec![], None);
    let expected = "<osmChange version=\"0.6\" generator=\"speedwalk\">\n  <create>\n  </create>\n  <modify>\n  </modify>\n</osmChange>\n";
    assert_eq!(m.to_osc(), expected);
}

#[test]
fn created_nodes_and_touched_ways_are_rendered() {
    let nodes = vec![node(1, 0, 0), node(2, 10000000, 0)];
    let ways = vec![way(10, vec![1, 2], vec!["highway=residential"])];
    let mut m = scrape_osm(nodes, ways, None);
    let pt = PtGeo { x: 5000000, y: 0, lon: 12340000, lat: -5 };
    m.apply_cmd(
        UserCmd::AddCrossing(pt, Tags::new_from_pairs(&vec!["highway=crossing"])),
        &CmdEvent::CrossingTarget(Some((10, 1))),
    )
    .unwrap();
    m.after_edit();
    let doc = m.to_osc();
    let expected = "<osmChange version=\"0.6\" generator=\"speedwalk\">\n  <create>\n    <node id=\"-1\" version=\"0\" lon=\"1.2340000\" lat=\"-0.0000005\">\n      <tag k=\"highway\" v=\"crossing\" />\n    </node>\n  </create>\n  <modify>\n    <way id=\"10\" version=\"1\">\n      <nd ref=\"1\" />\n      <nd ref=\"-1\" />\n      <nd ref=\"2\" />\n      <tag k=\"highway\" v=\"residential\" />\n    </way>\n  </modify>\n</osmChange>\n";
    assert_eq!(doc, expected);
}

#[test]
fn split_at_side_roads_needs_a_cut_pattern() {
    // A way with no qualifying (new sidewalk, road, new sidewalk) triple
    // yields no change at all.
    let nodes = vec![node(1, 0, 0), node(2, 5000, 0), node(3, 10000, 0)];
    let ways = vec![way(10, vec![1, 2, 3], vec!["highway=footway", "footway=sidewalk"])];
    let m = scrape_osm(nodes, ways, None);
    let changes = m.split_at_side_roads(10);
    assert_eq!(changes.create_new_sidewalks.len(), 0);
    assert_eq!(changes.delete_new_sidewalks.len(), 0);
}

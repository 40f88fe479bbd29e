//! The crossing connector: which crossing nodes need a crossing way, and
//! the way built once the two sidewalk hits are measured.

use vstd::prelude::*;
use crate::classify::Kind;
use crate::edits::{CreateNewGeometry, PtGeo};
use crate::store::{Speedwalk, spec_is_crossing_node};
use crate::tags::{Tags, tag_get, tag_set};
use crate::idmap::id_find;
use crate::geomath::{dist_sq, spec_nearly_parallel};

verus! {

/// Where a perpendicular test ray met a sidewalk: the sidewalk way, the
/// point, and the index the point splices into that way's node list.
#[derive(Clone, Copy, Debug, PartialEq, Eq, Structural)]
pub struct CrossingHit {
    pub sidewalk: i64,
    pub point: PtGeo,
    pub insert_idx: usize,
}

/// Does a crossing node need a new crossing way: it is tagged as a
/// crossing, and it sits on exactly one way, or on exactly two whose
/// average bearings (measured by the caller, in degrees) are nearly
/// parallel or anti-parallel.
pub open spec fn spec_needs_crossing(
    nodes: Seq<(i64, crate::store::NodeView)>,
    nid: i64,
    avg_bearings: Option<(i64, i64)>,
) -> bool {
    match id_find(nodes, nid) {
        Some(nd) => spec_is_crossing_node(nd.tags) && (nd.way_ids.len() == 1 || (nd.way_ids.len()
            == 2 && match avg_bearings {
            Some((a, b)) => spec_nearly_parallel(a as int, b as int, 10),
            None => false,
        })),
        None => false,
    }
}

/// The tags of a new crossing way: a footway crossing, carrying the
/// crossing node's own crossing tag where it has one.
pub open spec fn spec_crossing_way_tags(node_tags: Seq<(Seq<char>, Seq<char>)>) -> Seq<
    (Seq<char>, Seq<char>),
> {
    let base = tag_set(
        tag_set(Seq::empty(), "highway"@, "footway"@),
        "footway"@,
        "crossing"@,
    );
    match tag_get(node_tags, "crossing"@) {
        Some(v) => tag_set(base, "crossing"@, v),
        None => base,
    }
}

impl Speedwalk {
    /// Whether this node qualifies for a new crossing way.
    pub fn needs_crossing(&self, nid: i64, avg_bearings: Option<(i64, i64)>) -> (r: bool)
        requires
            match avg_bearings {
                Some((a, b)) => -360 <= a <= 360 && -360 <= b <= 360,
                None => true,
            },
        ensures
            r == spec_needs_crossing(self.derived_nodes@, nid, avg_bearings),
    {
        let found = self.derived_nodes.get(nid);
        match found {
            Some(nd) => {
                if !nd.is_crossing() {
                    return false;
                }
                if nd.way_ids.len() == 1 {
                    return true;
                }
                if nd.way_ids.len() == 2 {
                    match avg_bearings {
                        Some((a, b)) => crate::geomath::nearly_parallel(a, b, 10),
                        None => false,
                    }
                } else {
                    false
                }
            },
            None => false,
        }
    }

    /// Build the geometry event for one crossing: a three-point crossing
    /// way from the first hit over the node to the second hit, with a
    /// splice into each sidewalk. A pair of hits whose endpoints sit closer
    /// than one unit is degenerate and yields nothing.
    pub fn connect_crossing(&self, nid: i64, hit1: CrossingHit, hit2: CrossingHit) -> (r: Option<
        CreateNewGeometry,
    >)
        requires
            -0x4000_0000 <= hit1.point.x <= 0x4000_0000,
            -0x4000_0000 <= hit1.point.y <= 0x4000_0000,
            -0x4000_0000 <= hit2.point.x <= 0x4000_0000,
            -0x4000_0000 <= hit2.point.y <= 0x4000_0000,
        ensures
            match id_find(self.derived_nodes@, nid) {
                Some(nd) => {
                    if dist_sq((hit1.point.x, hit1.point.y), (hit2.point.x, hit2.point.y))
                        < 1000000 {
                        r is None
                    } else {
                        match r {
                            Some(g) => {
                                &&& g@.new_kind == Kind::Crossing
                                &&& g@.new_objects.len() == 1
                                &&& g@.new_objects[0].0 == seq![
                                    hit1.point,
                                    PtGeo { x: nd.x, y: nd.y, lon: nd.lon, lat: nd.lat },
                                    hit2.point,
                                ]
                                &&& g@.new_objects[0].1 == spec_crossing_way_tags(nd.tags)
                                &&& g@.modify_existing == seq![
                                    (hit1.sidewalk, seq![(hit1.point, hit1.insert_idx)]),
                                    (hit2.sidewalk, seq![(hit2.point, hit2.insert_idx)]),
                                ]
                            },
                            None => false,
                        }
                    }
                },
                None => r is None,
            },
    {
        let found = self.derived_nodes.get(nid);
        let nd = match found {
            Some(nd) => nd,
            None => {
                return None;
            },
        };
        let d2 = crate::geomath::squared_distance(
            (hit1.point.x, hit1.point.y),
            (hit2.point.x, hit2.point.y),
        );
        if d2 < 1000000 {
            return None;
        }
        let mut tags = Tags::empty();
        tags.insert("highway", "footway");
        tags.insert("footway", "crossing");
        match nd.tags.get("crossing") {
            Some(v) => {
                let vc = v.clone();
                tags.insert("crossing", vc.as_str());
            },
            None => {},
        }
        let mut pts: Vec<PtGeo> = Vec::new();
        pts.push(hit1.point);
        pts.push(PtGeo { x: nd.x, y: nd.y, lon: nd.lon, lat: nd.lat });
        pts.push(hit2.point);
        let mut new_objects: Vec<(Vec<PtGeo>, Tags)> = Vec::new();
        new_objects.push((pts, tags));
        let mut me: Vec<(i64, Vec<(PtGeo, usize)>)> = Vec::new();
        let mut m1: Vec<(PtGeo, usize)> = Vec::new();
        m1.push((hit1.point, hit1.insert_idx));
        let mut m2: Vec<(PtGeo, usize)> = Vec::new();
        m2.push((hit2.point, hit2.insert_idx));
        me.push((hit1.sidewalk, m1));
        me.push((hit2.sidewalk, m2));
        let g = CreateNewGeometry { new_objects, new_kind: Kind::Crossing, modify_existing: me };
        proof {
            assert(g@.new_objects[0].0 =~= seq![
                hit1.point,
                PtGeo { x: nd@.x, y: nd@.y, lon: nd@.lon, lat: nd@.lat },
                hit2.point,
            ]);
            assert(g@.modify_existing =~= seq![
                (hit1.sidewalk, seq![(hit1.point, hit1.insert_idx)]),
                (hit2.sidewalk, seq![(hit2.point, hit2.insert_idx)]),
            ]);
            assert(g@.modify_existing[0].1 =~= seq![(hit1.point, hit1.insert_idx)]);
            assert(g@.modify_existing[1].1 =~= seq![(hit2.point, hit2.insert_idx)]);
        }
        Some(g)
    }
}

/// The ordered fallback of crossing-side measurement: the perpendicular
/// ray's hit when it found one, else the nearby-point fallback; first
/// success wins.
pub fn first_hit(primary: Option<CrossingHit>, fallback: Option<CrossingHit>) -> (r: Option<
    CrossingHit,
>)
    ensures
        r == (if primary is Some {
            primary
        } else {
            fallback
        }),
{
    match primary {
        Some(h) => Some(h),
        None => fallback,
    }
}

/// The half-crossing choice: a node already connected on one side takes,
/// of the two perpendicular candidates, the one farther from the existing
/// footway as its missing side. Distances are the caller's, squared.
pub fn pick_far_side(h1: CrossingHit, d1_sq: u64, h2: CrossingHit, d2_sq: u64) -> (r: CrossingHit)
    ensures
        r == (if d1_sq >= d2_sq {
            h1
        } else {
            h2
        }),
{
    if d1_sq >= d2_sq {
        h1
    } else {
        h2
    }
}

} // verus!

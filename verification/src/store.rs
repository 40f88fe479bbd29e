//! The node/way store: the authoritative data every derived computation is
//! recomputed from. Planar coordinates are kept as integer thousandths of a
//! unit; longitude and latitude as integer ten-millionths of a degree, the
//! resolution the upstream map data uses.

use vstd::prelude::*;
use crate::tags::{Tags, tags_wf, tag_is};
use crate::classify::Kind;
use crate::idmap::{IdMap, DupView, id_find, id_has};

verus! {

/// A note attached to a node or way by the problem detector, with optional
/// debug geometry.
pub struct Problem {
    pub note: String,
    pub details: Option<Vec<(i64, i64)>>,
}

pub ghost struct ProblemView {
    pub note: Seq<char>,
    pub details: Option<Seq<(i64, i64)>>,
}

impl View for Problem {
    type V = ProblemView;

    open spec fn view(&self) -> ProblemView {
        ProblemView {
            note: self.note@,
            details: match self.details {
                Some(d) => Some(d@),
                None => None,
            },
        }
    }
}

impl DupView for Problem {
    fn dup(&self) -> (r: Self)
        ensures
            r@ == self@,
    {
        Problem {
            note: self.note.clone(),
            details: match &self.details {
                Some(d) => Some(copy_pt_vec(d)),
                None => None,
            },
        }
    }
}

pub struct Node {
    /// Planar position, thousandths of a unit.
    pub x: i64,
    pub y: i64,
    /// Geographic position, ten-millionths of a degree.
    pub lon: i64,
    pub lat: i64,
    pub tags: Tags,
    pub version: i32,
    /// Derived: which ways reference this node (sorted, no duplicates).
    pub way_ids: Vec<i64>,
    /// Derived: was this node touched by an edit?
    pub modified: bool,
    /// Derived: problems found at this node.
    pub problems: Vec<Problem>,
}

pub ghost struct NodeView {
    pub x: i64,
    pub y: i64,
    pub lon: i64,
    pub lat: i64,
    pub tags: Seq<(Seq<char>, Seq<char>)>,
    pub version: i32,
    pub way_ids: Seq<i64>,
    pub modified: bool,
    pub problems: Seq<ProblemView>,
}

impl View for Node {
    type V = NodeView;

    open spec fn view(&self) -> NodeView {
        NodeView {
            x: self.x,
            y: self.y,
            lon: self.lon,
            lat: self.lat,
            tags: self.tags@,
            version: self.version,
            way_ids: self.way_ids@,
            modified: self.modified,
            problems: self.problems@.map_values(|p: Problem| p@),
        }
    }
}

pub struct Way {
    /// The ordered nodes this way runs through.
    pub node_ids: Vec<i64>,
    /// The polyline those nodes form, positionally consistent with them.
    pub linestring: Vec<(i64, i64)>,
    pub tags: Tags,
    pub version: i32,
    /// Derived: the classification of the tags.
    pub kind: Kind,
    pub modified: bool,
    pub problems: Vec<Problem>,
}

pub ghost struct WayView {
    pub node_ids: Seq<i64>,
    pub linestring: Seq<(i64, i64)>,
    pub tags: Seq<(Seq<char>, Seq<char>)>,
    pub version: i32,
    pub kind: Kind,
    pub modified: bool,
    pub problems: Seq<ProblemView>,
}

impl View for Way {
    type V = WayView;

    open spec fn view(&self) -> WayView {
        WayView {
            node_ids: self.node_ids@,
            linestring: self.linestring@,
            tags: self.tags@,
            version: self.version,
            kind: self.kind,
            modified: self.modified,
            problems: self.problems@.map_values(|p: Problem| p@),
        }
    }
}

/// An exact copy of a vector of integer points.
pub fn copy_pt_vec(v: &Vec<(i64, i64)>) -> (r: Vec<(i64, i64)>)
    ensures
        r@ == v@,
{
    let n = v.len();
    let mut r: Vec<(i64, i64)> = Vec::new();
    let mut i: usize = 0;
    while i < n
        invariant
            n == v@.len(),
            i <= n,
            r@ =~= v@.subrange(0, i as int),
        decreases n - i,
    {
        r.push(v[i]);
        proof {
            assert(r@ =~= v@.subrange(0, i as int + 1));
        }
        i += 1;
    }
    proof {
        assert(r@ =~= v@);
    }
    r
}

/// An exact copy of a vector of identifiers.
pub fn copy_id_vec(v: &Vec<i64>) -> (r: Vec<i64>)
    ensures
        r@ == v@,
{
    let n = v.len();
    let mut r: Vec<i64> = Vec::new();
    let mut i: usize = 0;
    while i < n
        invariant
            n == v@.len(),
            i <= n,
            r@ =~= v@.subrange(0, i as int),
        decreases n - i,
    {
        r.push(v[i]);
        proof {
            assert(r@ =~= v@.subrange(0, i as int + 1));
        }
        i += 1;
    }
    proof {
        assert(r@ =~= v@);
    }
    r
}

fn dup_problems(v: &Vec<Problem>) -> (r: Vec<Problem>)
    ensures
        r@.map_values(|p: Problem| p@) == v@.map_values(|p: Problem| p@),
{
    let n = v.len();
    let mut r: Vec<Problem> = Vec::new();
    let mut i: usize = 0;
    while i < n
        invariant
            n == v@.len(),
            i <= n,
            r@.len() == i,
            forall|j: int| 0 <= j < i ==> (#[trigger] r@[j])@ == v@[j]@,
        decreases n - i,
    {
        r.push(v[i].dup());
        i += 1;
    }
    proof {
        assert(r@.map_values(|p: Problem| p@) =~= v@.map_values(|p: Problem| p@));
    }
    r
}

impl DupView for Node {
    fn dup(&self) -> (r: Self)
        ensures
            r@ == self@,
    {
        Node {
            x: self.x,
            y: self.y,
            lon: self.lon,
            lat: self.lat,
            tags: self.tags.duplicate(),
            version: self.version,
            way_ids: copy_id_vec(&self.way_ids),
            modified: self.modified,
            problems: dup_problems(&self.problems),
        }
    }
}

impl DupView for Way {
    fn dup(&self) -> (r: Self)
        ensures
            r@ == self@,
    {
        Way {
            node_ids: copy_id_vec(&self.node_ids),
            linestring: copy_pt_vec(&self.linestring),
            tags: self.tags.duplicate(),
            version: self.version,
            kind: self.kind,
            modified: self.modified,
            problems: dup_problems(&self.problems),
        }
    }
}

/// Is this node tagged as a pedestrian crossing?
pub open spec fn spec_is_crossing_node(t: Seq<(Seq<char>, Seq<char>)>) -> bool {
    tag_is(t, "highway"@, "crossing"@) || (tag_is(t, "highway"@, "traffic_signals"@) && tag_is(
        t,
        "crossing"@,
        "traffic_signals"@,
    ))
}

/// Is this node explicitly tagged as not being a crossing?
pub open spec fn spec_is_explicit_crossing_no(t: Seq<(Seq<char>, Seq<char>)>) -> bool {
    tag_is(t, "crossing"@, "no"@)
}

/// Is this way a severance: a major-road class pedestrians cannot casually
/// cross without a dedicated crossing?
pub open spec fn spec_is_severance(t: Seq<(Seq<char>, Seq<char>)>) -> bool {
    ||| tag_is(t, "highway"@, "motorway"@)
    ||| tag_is(t, "highway"@, "motorway_link"@)
    ||| tag_is(t, "highway"@, "trunk"@)
    ||| tag_is(t, "highway"@, "trunk_link"@)
    ||| tag_is(t, "highway"@, "primary"@)
    ||| tag_is(t, "highway"@, "primary_link"@)
    ||| tag_is(t, "highway"@, "secondary"@)
    ||| tag_is(t, "highway"@, "secondary_link"@)
    ||| tag_is(t, "highway"@, "tertiary"@)
    ||| tag_is(t, "highway"@, "tertiary_link"@)
}

impl Node {
    pub fn is_crossing(&self) -> (r: bool)
        ensures
            r == spec_is_crossing_node(self@.tags),
    {
        self.tags.is("highway", "crossing") || (self.tags.is("highway", "traffic_signals")
            && self.tags.is("crossing", "traffic_signals"))
    }

    pub fn is_explicit_crossing_no(&self) -> (r: bool)
        ensures
            r == spec_is_explicit_crossing_no(self@.tags),
    {
        self.tags.is("crossing", "no")
    }
}

impl Way {
    pub fn is_severance(&self) -> (r: bool)
        ensures
            r == spec_is_severance(self@.tags),
    {
        self.tags.is("highway", "motorway") || self.tags.is("highway", "motorway_link")
            || self.tags.is("highway", "trunk") || self.tags.is("highway", "trunk_link")
            || self.tags.is("highway", "primary") || self.tags.is("highway", "primary_link")
            || self.tags.is("highway", "secondary") || self.tags.is("highway", "secondary_link")
            || self.tags.is("highway", "tertiary") || self.tags.is("highway", "tertiary_link")
    }
}

/// A way is internally consistent and positionally consistent with the node
/// store: one polyline point per node, each the referenced node's position.
pub open spec fn way_consistent(nodes: Seq<(i64, NodeView)>, w: WayView) -> bool {
    &&& w.linestring.len() == w.node_ids.len()
    &&& forall|i: int|
        0 <= i < w.node_ids.len() ==> id_has(nodes, #[trigger] w.node_ids[i]) && w.linestring[i]
            == {
            let nd = id_find(nodes, w.node_ids[i]).unwrap();
            (nd.x, nd.y)
        }
}

/// Well-formedness of a whole store snapshot: maps sorted, tag keys unique,
/// ways consistent with the nodes.
pub open spec fn store_wf(nodes: Seq<(i64, NodeView)>, ways: Seq<(i64, WayView)>) -> bool {
    &&& crate::idmap::id_sorted(nodes)
    &&& crate::idmap::id_sorted(ways)
    &&& forall|i: int| 0 <= i < nodes.len() ==> tags_wf((#[trigger] nodes[i]).1.tags)
    &&& forall|i: int| 0 <= i < ways.len() ==> tags_wf((#[trigger] ways[i]).1.tags)
    &&& forall|i: int| 0 <= i < ways.len() ==> way_consistent(nodes, (#[trigger] ways[i]).1)
}

/// The model: an immutable original store, the edit log, and the derived
/// store the log materializes.
pub struct Speedwalk {
    pub original_nodes: IdMap<Node>,
    pub original_ways: IdMap<Way>,
    pub timestamp: Option<i64>,
    pub edits: crate::edits::Edits,
    pub derived_nodes: IdMap<Node>,
    pub derived_ways: IdMap<Way>,
}

} // verus!

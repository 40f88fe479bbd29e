//! The problem detector: tag/topology consistency checks over the derived
//! store, recomputed wholesale after every edit.

use vstd::prelude::*;
use crate::classify::Kind;
use crate::store::{
    Node,
    NodeView,
    Way,
    WayView,
    Problem,
    ProblemView,
    Speedwalk,
    spec_is_crossing_node,
    spec_is_severance,
};
use crate::tags::tag_is;
use crate::idmap::{IdMap, DupView, id_find};

verus! {

/// How many entries of `ids` equal `n`.
pub open spec fn count_occ(ids: Seq<i64>, n: i64) -> nat
    decreases ids.len(),
{
    if ids.len() == 0 {
        0
    } else {
        count_occ(ids.drop_last(), n) + if ids.last() == n {
            1nat
        } else {
            0nat
        }
    }
}

/// How many times crossing-tagged footways run through node `n`: one per
/// occurrence in the node list of a way tagged footway=crossing.
pub open spec fn crossing_footway_refs(ways: Seq<(i64, WayView)>, n: i64) -> nat
    decreases ways.len(),
{
    if ways.len() == 0 {
        0
    } else {
        crossing_footway_refs(ways.drop_last(), n) + if tag_is(
            ways.last().1.tags,
            "footway"@,
            "crossing"@,
        ) {
            count_occ(ways.last().1.node_ids, n)
        } else {
            0nat
        }
    }
}

/// Does this membership list name any road-like way (anything but a
/// sidewalk or other footway)?
pub open spec fn references_road(ways: Seq<(i64, WayView)>, way_ids: Seq<i64>) -> bool {
    exists|j: int|
        0 <= j < way_ids.len() && match id_find(ways, #[trigger] way_ids[j]) {
            Some(w) => !(w.kind == Kind::Sidewalk || w.kind == Kind::Other),
            None => false,
        }
}

pub open spec fn missing_crossing_note() -> ProblemView {
    ProblemView { note: "missing crossing node"@, details: None }
}

/// Check (a): a node on a crossing-tagged footway that is not itself tagged
/// as a crossing, yet sits on a road, is flagged once per such footway
/// occurrence.
pub open spec fn check_a(
    nodes: Seq<(i64, NodeView)>,
    ways: Seq<(i64, WayView)>,
) -> Seq<(i64, NodeView)> {
    nodes.map_values(
        |e: (i64, NodeView)| (
            e.0,
            if !spec_is_crossing_node(e.1.tags) && references_road(ways, e.1.way_ids) {
                NodeView {
                    problems: e.1.problems + Seq::new(
                        crossing_footway_refs(ways, e.0),
                        |k: int| missing_crossing_note(),
                    ),
                    ..e.1
                }
            } else {
                e.1
            },
        ),
    )
}

/// Is this node a crossing node lying on a severance?
pub open spec fn severance_crossing_node(
    nodes: Seq<(i64, NodeView)>,
    ways: Seq<(i64, WayView)>,
    nid: i64,
) -> bool {
    match id_find(nodes, nid) {
        Some(nd) => spec_is_crossing_node(nd.tags) && exists|j: int|
            0 <= j < nd.way_ids.len() && match id_find(ways, #[trigger] nd.way_ids[j]) {
                Some(w) => spec_is_severance(w.tags),
                None => false,
            },
        None => false,
    }
}

/// The first node of the list that is a crossing node on a severance.
pub open spec fn first_severance_crossing(
    nodes: Seq<(i64, NodeView)>,
    ways: Seq<(i64, WayView)>,
    ids: Seq<i64>,
) -> Option<i64>
    decreases ids.len(),
{
    if ids.len() == 0 {
        None
    } else if severance_crossing_node(nodes, ways, ids[0]) {
        Some(ids[0])
    } else {
        first_severance_crossing(nodes, ways, ids.drop_first())
    }
}

pub open spec fn missing_footway_crossing_note(pt: (i64, i64)) -> ProblemView {
    ProblemView { note: "missing footway=crossing"@, details: Some(seq![pt]) }
}

/// Which node, if any, flags this way under check (b).
pub open spec fn flag_b(
    nodes: Seq<(i64, NodeView)>,
    ways: Seq<(i64, WayView)>,
    w: WayView,
) -> Option<i64> {
    if (w.kind == Kind::Sidewalk || w.kind == Kind::Other) && !tag_is(
        w.tags,
        "footway"@,
        "crossing"@,
    ) {
        first_severance_crossing(nodes, ways, w.node_ids)
    } else {
        None
    }
}

/// Check (b): a footway that runs through a crossing node on a severance but
/// is not itself tagged footway=crossing is flagged, with the node's
/// position as debug geometry.
pub open spec fn check_b(
    nodes: Seq<(i64, NodeView)>,
    ways: Seq<(i64, WayView)>,
) -> Seq<(i64, WayView)> {
    ways.map_values(
        |e: (i64, WayView)| (
            e.0,
            match flag_b(nodes, ways, e.1) {
                Some(nid) => {
                    let nd = id_find(nodes, nid).unwrap();
                    WayView {
                        problems: e.1.problems.push(missing_footway_crossing_note((nd.x, nd.y))),
                        ..e.1
                    }
                },
                None => e.1,
            },
        ),
    )
}

impl Speedwalk {
    /// Does this node's membership list name any road-like way?
    fn node_references_road(&self, way_ids: &Vec<i64>) -> (r: bool)
        ensures
            r == references_road(self.derived_ways@, way_ids@),
    {
        let n = way_ids.len();
        let mut i: usize = 0;
        while i < n
            invariant
                n == way_ids@.len(),
                i <= n,
                forall|j: int|
                    0 <= j < i ==> !(match id_find(self.derived_ways@, #[trigger] way_ids@[j]) {
                        Some(w) => !(w.kind == Kind::Sidewalk || w.kind == Kind::Other),
                        None => false,
                    }),
            decreases n - i,
        {
            match self.derived_ways.get(way_ids[i]) {
                Some(w) => {
                    let road = match w.kind {
                        Kind::Sidewalk => false,
                        Kind::Other => false,
                        _ => true,
                    };
                    if road {
                        return true;
                    }
                },
                None => {},
            }
            i += 1;
        }
        false
    }

    /// Is `nid` a crossing node on a severance?
    fn is_severance_crossing_node(&self, nid: i64) -> (r: bool)
        ensures
            r == severance_crossing_node(self.derived_nodes@, self.derived_ways@, nid),
    {
        match self.derived_nodes.get(nid) {
            Some(nd) => {
                if !nd.is_crossing() {
                    return false;
                }
                let n = nd.way_ids.len();
                let mut i: usize = 0;
                while i < n
                    invariant
                        n == nd@.way_ids.len(),
                        id_find(self.derived_nodes@, nid) == Some(nd@),
                        spec_is_crossing_node(nd@.tags),
                        i <= n,
                        forall|j: int|
                            0 <= j < i ==> !(match id_find(
                                self.derived_ways@,
                                #[trigger] nd@.way_ids[j],
                            ) {
                                Some(w) => spec_is_severance(w.tags),
                                None => false,
                            }),
                    decreases n - i,
                {
                    match self.derived_ways.get(nd.way_ids[i]) {
                        Some(w) => {
                            if w.is_severance() {
                                proof {
                                    let j = i as int;
                                    assert(match id_find(
                                        self.derived_ways@,
                                        nd@.way_ids[j],
                                    ) {
                                        Some(wv) => spec_is_severance(wv.tags),
                                        None => false,
                                    });
                                }
                                return true;
                            }
                        },
                        None => {},
                    }
                    i += 1;
                }
                false
            },
            None => false,
        }
    }

    /// Recompute every problem list: check (a) over nodes, then check (b)
    /// over ways. Nothing else of the model changes.
    pub fn recalculate_problems(&mut self)
        ensures
            final(self).derived_nodes@ == check_a(
                old(self).derived_nodes@,
                old(self).derived_ways@,
            ),
            final(self).derived_ways@ == check_b(
                check_a(old(self).derived_nodes@, old(self).derived_ways@),
                old(self).derived_ways@,
            ),
            final(self).original_nodes == old(self).original_nodes,
            final(self).original_ways == old(self).original_ways,
            final(self).edits == old(self).edits,
            final(self).timestamp == old(self).timestamp,
    {
        let ghost nodes0 = self.derived_nodes@;
        let ghost ways0 = self.derived_ways@;

        // Check (a): flag nodes.
        let n_nodes = self.derived_nodes.len();
        let mut i: usize = 0;
        while i < n_nodes
            invariant
                n_nodes == self.derived_nodes@.len(),
                nodes0.len() == n_nodes,
                i <= n_nodes,
                self.derived_ways@ == ways0,
                forall|j: int| i <= j < n_nodes ==> self.derived_nodes@[j] == nodes0[j],
                forall|j: int|
                    0 <= j < i ==> self.derived_nodes@[j] == check_a(nodes0, ways0)[j],
                self.original_nodes == old(self).original_nodes,
                self.original_ways == old(self).original_ways,
                self.edits == old(self).edits,
                self.timestamp == old(self).timestamp,
                self.derived_ways == old(self).derived_ways,
            decreases n_nodes - i,
        {
            let nid = self.derived_nodes.key_at(i);
            let crossing = self.derived_nodes.value_at(i).is_crossing();
            let refs_road = {
                let ids = copy_way_ids(self.derived_nodes.value_at(i));
                self.node_references_road(&ids)
            };
            if !crossing && refs_road {
                let ghost fi = i as int;
                let mut nd = self.derived_nodes.value_at(i).dup();
                let n_ways = self.derived_ways.len();
                let mut wi: usize = 0;
                proof {
                    assert(ways0.subrange(0, 0) =~= Seq::<(i64, WayView)>::empty());
                }
                while wi < n_ways
                    invariant
                        n_ways == ways0.len(),
                        self.derived_ways@ == ways0,
                        0 <= fi < nodes0.len(),
                        nid == nodes0[fi].0,
                        wi <= n_ways,
                        nd@.problems == nodes0[fi].1.problems + Seq::new(
                            crossing_footway_refs(ways0.subrange(0, wi as int), nid),
                            |k: int| missing_crossing_note(),
                        ),
                        nd@ == (NodeView { problems: nd@.problems, ..nodes0[fi].1 }),
                    decreases n_ways - wi,
                {
                    proof {
                        let cur = ways0.subrange(0, wi as int + 1);
                        assert(cur.drop_last() =~= ways0.subrange(0, wi as int));
                        assert(cur.last() == ways0[wi as int]);
                    }
                    let w = self.derived_ways.value_at(wi);
                    if w.tags.is("footway", "crossing") {
                        let ghost ids = ways0[wi as int].1.node_ids;
                        let ghost base = crossing_footway_refs(
                            ways0.subrange(0, wi as int),
                            nid,
                        );
                        let n_ids = w.node_ids.len();
                        let mut p: usize = 0;
                        proof {
                            assert(ids.subrange(0, 0) =~= Seq::<i64>::empty());
                        }
                        while p < n_ids
                            invariant
                                n_ids == ids.len(),
                                w@.node_ids == ids,
                                0 <= fi < nodes0.len(),
                                nid == nodes0[fi].0,
                                p <= n_ids,
                                nd@.problems == nodes0[fi].1.problems + Seq::new(
                                    base + count_occ(ids.subrange(0, p as int), nid),
                                    |k: int| missing_crossing_note(),
                                ),
                                nd@ == (NodeView { problems: nd@.problems, ..nodes0[fi].1 }),
                            decreases n_ids - p,
                        {
                            proof {
                                let cur = ids.subrange(0, p as int + 1);
                                assert(cur.drop_last() =~= ids.subrange(0, p as int));
                                assert(cur.last() == ids[p as int]);
                            }
                            if w.node_ids[p] == nid {
                                let ghost before = nd@.problems;
                                nd.problems.push(
                                    Problem {
                                        note: new_string("missing crossing node"),
                                        details: None,
                                    },
                                );
                                proof {
                                    assert(nd@.problems =~= before.push(missing_crossing_note()));
                                    assert(nd@.problems =~= nodes0[fi].1.problems + Seq::new(
                                        base + count_occ(ids.subrange(0, p as int), nid) + 1,
                                        |k: int| missing_crossing_note(),
                                    ));
                                }
                            }
                            p += 1;
                        }
                        proof {
                            assert(ids.subrange(0, n_ids as int) =~= ids);
                        }
                    }
                    wi += 1;
                }
                proof {
                    assert(ways0.subrange(0, n_ways as int) =~= ways0);
                }
                self.derived_nodes.set_value_at(i, nd);
                proof {
                    assert(self.derived_nodes@[i as int] == check_a(nodes0, ways0)[i as int]);
                }
            } else {
                proof {
                    assert(self.derived_nodes@[i as int] == check_a(nodes0, ways0)[i as int]);
                }
            }
            i += 1;
        }
        proof {
            assert(self.derived_nodes@ =~= check_a(nodes0, ways0));
        }
        let ghost final_nodes_snapshot = self.derived_nodes;

        // Check (b), first pass: find, per way, the node that flags it,
        // while the way store is still untouched.
        let ghost nodes1 = self.derived_nodes@;
        let n_ways = self.derived_ways.len();
        let mut flags: Vec<Option<i64>> = Vec::new();
        let mut i: usize = 0;
        while i < n_ways
            invariant
                n_ways == self.derived_ways@.len(),
                self.derived_ways@ == ways0,
                self.derived_nodes@ == nodes1,
                i <= n_ways,
                flags@.len() == i,
                forall|j: int|
                    0 <= j < i ==> flags@[j] == flag_b(nodes1, ways0, ways0[j].1),
                self.original_nodes == old(self).original_nodes,
                self.original_ways == old(self).original_ways,
                self.edits == old(self).edits,
                self.timestamp == old(self).timestamp,
                self.derived_nodes == final_nodes_snapshot,
            decreases n_ways - i,
        {
            let kind_matches = {
                let w = self.derived_ways.value_at(i);
                let km = match w.kind {
                    Kind::Sidewalk => true,
                    Kind::Other => true,
                    _ => false,
                };
                km && !w.tags.is("footway", "crossing")
            };
            if kind_matches {
                flags.push(self.first_severance_crossing_exec(i));
            } else {
                flags.push(None);
            }
            i += 1;
        }

        // Check (b), second pass: append the problems.
        let mut i: usize = 0;
        while i < n_ways
            invariant
                n_ways == self.derived_ways@.len(),
                ways0.len() == n_ways,
                self.derived_nodes@ == nodes1,
                i <= n_ways,
                flags@.len() == n_ways,
                forall|j: int|
                    0 <= j < n_ways ==> flags@[j] == flag_b(nodes1, ways0, ways0[j].1),
                forall|j: int| i <= j < n_ways ==> self.derived_ways@[j] == ways0[j],
                forall|j: int| 0 <= j < i ==> self.derived_ways@[j] == check_b(nodes1, ways0)[j],
                self.original_nodes == old(self).original_nodes,
                self.original_ways == old(self).original_ways,
                self.edits == old(self).edits,
                self.timestamp == old(self).timestamp,
                self.derived_nodes == final_nodes_snapshot,
            decreases n_ways - i,
        {
            match flags[i] {
                Some(nid) => {
                    proof {
                        assert(flag_b(nodes1, ways0, ways0[i as int].1) == Some(nid));
                        assert(severance_crossing_node(nodes1, ways0, nid)) by {
                            lemma_first_severance_crossing_holds(
                                nodes1,
                                ways0,
                                ways0[i as int].1.node_ids,
                            );
                        }
                    }
                    let nd_pt = match self.derived_nodes.get(nid) {
                        Some(node) => (node.x, node.y),
                        None => (0, 0),
                    };
                    let mut w = self.derived_ways.value_at(i).dup();
                    let mut details: Vec<(i64, i64)> = Vec::new();
                    details.push(nd_pt);
                    let ghost before = w@.problems;
                    w.problems.push(
                        Problem {
                            note: new_string("missing footway=crossing"),
                            details: Some(details),
                        },
                    );
                    proof {
                        assert(seq![nd_pt] =~= Seq::<(i64, i64)>::empty().push(nd_pt));
                        assert(w@.problems =~= before.push(missing_footway_crossing_note(nd_pt)));
                    }
                    self.derived_ways.set_value_at(i, w);
                    proof {
                        assert(self.derived_ways@[i as int] == check_b(nodes1, ways0)[i as int]);
                    }
                },
                None => {
                    proof {
                        assert(self.derived_ways@[i as int] == check_b(nodes1, ways0)[i as int]);
                    }
                },
            }
            i += 1;
        }
        proof {
            assert(self.derived_ways@ =~= check_b(nodes1, ways0));
        }
    }

    /// The first node of way entry `i` that is a crossing node on a
    /// severance, scanning the node list in order.
    fn first_severance_crossing_exec(&self, i: usize) -> (r: Option<i64>)
        requires
            i < self.derived_ways@.len(),
        ensures
            r == first_severance_crossing(
                self.derived_nodes@,
                self.derived_ways@,
                self.derived_ways@[i as int].1.node_ids,
            ),
    {
        let ghost ids = self.derived_ways@[i as int].1.node_ids;
        let w = self.derived_ways.value_at(i);
        let n = w.node_ids.len();
        let mut j: usize = 0;
        proof {
            assert(ids.skip(0) =~= ids);
        }
        while j < n
            invariant
                n == ids.len(),
                w@ == self.derived_ways@[i as int].1,
                w@.node_ids == ids,
                j <= n,
                first_severance_crossing(self.derived_nodes@, self.derived_ways@, ids)
                    == first_severance_crossing(
                    self.derived_nodes@,
                    self.derived_ways@,
                    ids.skip(j as int),
                ),
            decreases n - j,
        {
            proof {
                assert(ids.skip(j as int)[0] == ids[j as int]);
                assert(ids.skip(j as int).drop_first() =~= ids.skip(j as int + 1));
            }
            if self.is_severance_crossing_node(w.node_ids[j]) {
                return Some(w.node_ids[j]);
            }
            j += 1;
        }
        proof {
            assert(ids.skip(n as int) =~= Seq::<i64>::empty());
        }
        None
    }
}

/// When the scan finds a node, that node indeed qualifies, and is held by
/// the node store.
proof fn lemma_first_severance_crossing_holds(
    nodes: Seq<(i64, NodeView)>,
    ways: Seq<(i64, WayView)>,
    ids: Seq<i64>,
)
    ensures
        match first_severance_crossing(nodes, ways, ids) {
            Some(nid) => severance_crossing_node(nodes, ways, nid),
            None => true,
        },
    decreases ids.len(),
{
    if ids.len() > 0 && !severance_crossing_node(nodes, ways, ids[0]) {
        lemma_first_severance_crossing_holds(nodes, ways, ids.drop_first());
    }
}

/// An exact copy of a node's membership list.
fn copy_way_ids(nd: &Node) -> (r: Vec<i64>)
    ensures
        r@ == nd@.way_ids,
{
    crate::store::copy_id_vec(&nd.way_ids)
}

/// A `String` from a literal.
fn new_string(s: &str) -> (r: String)
    ensures
        r@ == s@,
{
    s.to_owned()
}

/// A road kind that check (c) examines: a plain road that might have an
/// untagged separate sidewalk nearby.
pub open spec fn plain_road_kind(k: Kind) -> bool {
    ||| k == Kind::RoadWithTags
    ||| k == Kind::RoadWithoutSidewalksExplicit
    ||| k == Kind::RoadWithoutSidewalksImplicit
    ||| k == Kind::RoadUnknown
}

/// One measured parallel-sidewalk candidate: the road, the sidewalk found
/// near it, the undirected bearing difference of the matched slices in
/// whole degrees, and whether anything (a building, a third road) blocks
/// the span between them.
#[derive(Clone, Copy, Debug, PartialEq, Eq, Structural)]
pub struct ParallelCandidate {
    pub road: i64,
    pub sidewalk: i64,
    pub angle_diff: i64,
    pub blocked: bool,
}

/// Does a measured candidate flag its road: the road is a plain road, the
/// slices run within thirty degrees of parallel, and nothing blocks the
/// span between them.
pub open spec fn candidate_applies(ways: Seq<(i64, WayView)>, c: ParallelCandidate) -> bool {
    &&& match id_find(ways, c.road) {
        Some(w) => plain_road_kind(w.kind),
        None => false,
    }
    &&& 0 <= c.angle_diff < 30
    &&& !c.blocked
}

pub open spec fn parallel_note() -> ProblemView {
    ProblemView {
        note: "possible separate sidewalk near way without it tagged"@,
        details: None,
    }
}

/// Check (c) applied to a list of measured candidates, in order.
pub open spec fn apply_parallel(
    ways: Seq<(i64, WayView)>,
    cands: Seq<ParallelCandidate>,
) -> Seq<(i64, WayView)>
    decreases cands.len(),
{
    if cands.len() == 0 {
        ways
    } else {
        let p = apply_parallel(ways, cands.drop_last());
        let c = cands.last();
        if candidate_applies(ways, c) {
            match id_find(p, c.road) {
                Some(w) => crate::idmap::id_set(
                    p,
                    c.road,
                    WayView { problems: w.problems.push(parallel_note()), ..w },
                ),
                None => p,
            }
        } else {
            p
        }
    }
}

impl Speedwalk {
    /// Check (c) of the problem detector: flag each plain road that a
    /// measured candidate shows running beside an untagged sidewalk. The
    /// geometric measurements — slicing, bearings, blocking geometry — are
    /// the caller's; which roads qualify, and what gets flagged, is exact.
    pub fn add_parallel_sidewalk_problems(&mut self, cands: &Vec<ParallelCandidate>)
        requires
            old(self).derived_ways.wf(),
        ensures
            final(self).derived_ways@ == apply_parallel(old(self).derived_ways@, cands@),
            final(self).derived_nodes == old(self).derived_nodes,
            final(self).original_nodes == old(self).original_nodes,
            final(self).original_ways == old(self).original_ways,
            final(self).edits == old(self).edits,
            final(self).timestamp == old(self).timestamp,
    {
        let ghost ways0 = self.derived_ways@;
        let n = cands.len();
        let mut i: usize = 0;
        proof {
            assert(cands@.subrange(0, 0) =~= Seq::<ParallelCandidate>::empty());
        }
        while i < n
            invariant
                n == cands@.len(),
                i <= n,
                self.derived_ways.wf(),
                ways0 == old(self).derived_ways@,
                self.derived_ways@ == apply_parallel(ways0, cands@.subrange(0, i as int)),
                self.derived_nodes == old(self).derived_nodes,
                self.original_nodes == old(self).original_nodes,
                self.original_ways == old(self).original_ways,
                self.edits == old(self).edits,
                self.timestamp == old(self).timestamp,
            decreases n - i,
        {
            proof {
                let cur = cands@.subrange(0, i as int + 1);
                assert(cur.drop_last() =~= cands@.subrange(0, i as int));
                assert(cur.last() == cands@[i as int]);
            }
            let c = cands[i];
            proof {
                lemma_kinds_stable(ways0, cands@.subrange(0, i as int), c.road);
            }
            let applies = {
                let in_orig = match self.road_kind_in(c.road) {
                    Some(k) => match k {
                        Kind::RoadWithTags => true,
                        Kind::RoadWithoutSidewalksExplicit => true,
                        Kind::RoadWithoutSidewalksImplicit => true,
                        Kind::RoadUnknown => true,
                        _ => false,
                    },
                    None => false,
                };
                in_orig && 0 <= c.angle_diff && c.angle_diff < 30 && !c.blocked
            };
            proof {
                assert(applies == candidate_applies(ways0, c));
            }
            if applies {
                let found = match self.derived_ways.get(c.road) {
                    Some(w) => Some(w.dup()),
                    None => None,
                };
                match found {
                    Some(mut w) => {
                        let ghost wv = w@;
                        let ghost pre = self.derived_ways@;
                        let ghost before = w@.problems;
                        w.problems.push(
                            Problem {
                                note: new_string(
                                    "possible separate sidewalk near way without it tagged",
                                ),
                                details: None,
                            },
                        );
                        proof {
                            assert(w@.problems =~= before.push(parallel_note()));
                            assert(id_find(pre, c.road) == Some(wv));
                        }
                        self.derived_ways.insert(c.road, w);
                    },
                    None => {},
                }
            }
            i += 1;
        }
        proof {
            assert(cands@.subrange(0, n as int) =~= cands@);
        }
    }

    /// The kind a way had before check (c) started: the kind it still has,
    /// since check (c) only appends problems.
    fn road_kind_in(&self, wid: i64) -> (r: Option<Kind>)
        ensures
            r == (match id_find(self.derived_ways@, wid) {
                Some(w) => Some(w.kind),
                None => None::<Kind>,
            }),
    {
        match self.derived_ways.get(wid) {
            Some(w) => Some(w.kind),
            None => None,
        }
    }
}

/// Applying candidates never changes a way's kind (or anything but its
/// problem list), so a kind lookup against the updated store answers for
/// the original one too.
proof fn lemma_kinds_stable(
    ways0: Seq<(i64, WayView)>,
    cands: Seq<ParallelCandidate>,
    wid: i64,
)
    ensures
        match (id_find(apply_parallel(ways0, cands), wid), id_find(ways0, wid)) {
            (Some(a), Some(b)) => a.kind == b.kind,
            (None, None) => true,
            _ => false,
        },
    decreases cands.len(),
{
    if cands.len() > 0 {
        lemma_kinds_stable(ways0, cands.drop_last(), wid);
        let p = apply_parallel(ways0, cands.drop_last());
        let c = cands.last();
        if candidate_applies(ways0, c) {
            match id_find(p, c.road) {
                Some(w) => {
                    crate::idmap::lemma_id_find_set(
                        p,
                        c.road,
                        WayView { problems: w.problems.push(parallel_note()), ..w },
                        wid,
                    );
                },
                None => {},
            }
        }
    }
}

} // verus!

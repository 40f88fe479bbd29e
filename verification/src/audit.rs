//! The junction audit: for every true junction, how many arms a pedestrian
//! can cross, against how many need crossings at all.

use vstd::prelude::*;
use crate::store::{NodeView, WayView, Speedwalk, spec_is_crossing_node, spec_is_explicit_crossing_no};
use crate::tags::{tag_is, tag_get, tag_has};
use crate::idmap::id_find;
use crate::graph::{Graph, EdgeID, IntersectionID};
use crate::geomath::{seg_len, spec_shortest_rotation};

verus! {

/// What the audit looks at and how far it walks along each arm
/// (thousandths of a unit).
#[derive(Clone, Copy, Debug, PartialEq, Eq, Structural)]
pub struct Options {
    pub only_major_roads: bool,
    pub ignore_utility_roads: bool,
    pub ignore_cycleways: bool,
    pub ignore_footways: bool,
    pub ignore_roundabouts: bool,
    pub max_distance: u64,
}

/// What scanning one arm for crossings found first.
#[derive(Clone, Copy, Debug, PartialEq, Eq, Structural)]
pub enum ArmFinding {
    ExplicitNo(i64),
    Crossing(i64),
    Nothing,
}

/// One audited junction.
pub struct Junction {
    pub intersection: IntersectionID,
    pub osm_node: i64,
    pub point: (i64, i64),
    /// Per arm: the edge, the nodes walked, and whether a crossing (or an
    /// explicit non-crossing) satisfies it.
    pub arms: Vec<(EdgeID, Vec<i64>, bool)>,
    pub number_dual_carriageway_splits: u64,
    pub number_roundabout_arms: u64,
    pub crossings: Vec<i64>,
    pub explicit_non_crossings: Vec<i64>,
    pub complete: bool,
}

/// The nodes reached walking from position i while each further segment
/// still fits in the budget.
pub open spec fn slice_from(ids: Seq<i64>, ls: Seq<(i64, i64)>, i: int, budget: int) -> Seq<i64>
    decreases ids.len() - i,
{
    if i < 0 || i >= ids.len() {
        Seq::empty()
    } else if i + 1 < ids.len() && ids.len() == ls.len() && seg_len(ls[i], ls[i + 1]) <= budget {
        seq![ids[i]] + slice_from(ids, ls, i + 1, budget - seg_len(ls[i], ls[i + 1]))
    } else {
        seq![ids[i]]
    }
}

/// The first position of a node in a list.
pub open spec fn first_index(ids: Seq<i64>, x: i64) -> Option<int>
    decreases ids.len(),
{
    if ids.len() == 0 {
        None
    } else if ids[0] == x {
        Some(0)
    } else {
        match first_index(ids.drop_first(), x) {
            Some(i) => Some(i + 1),
            None => None,
        }
    }
}

/// Walking a way from a node, forwards or backwards, up to a distance: the
/// nodes reached, the start included.
pub open spec fn spec_slice_way(w: WayView, start: i64, forwards: bool, max_d: int) -> Seq<i64> {
    let ids = if forwards {
        w.node_ids
    } else {
        w.node_ids.reverse()
    };
    let ls = if forwards {
        w.linestring
    } else {
        w.linestring.reverse()
    };
    match first_index(ids, start) {
        Some(p) => slice_from(ids, ls, p, max_d),
        None => Seq::empty(),
    }
}

/// The first crossing-relevant node along an arm: an explicit crossing=no
/// wins where it comes first, else the first crossing node.
pub open spec fn spec_arm_finding(nodes: Seq<(i64, NodeView)>, reached: Seq<i64>) -> ArmFinding
    decreases reached.len(),
{
    if reached.len() == 0 {
        ArmFinding::Nothing
    } else {
        match id_find(nodes, reached[0]) {
            Some(nd) => if spec_is_explicit_crossing_no(nd.tags) {
                ArmFinding::ExplicitNo(reached[0])
            } else if spec_is_crossing_node(nd.tags) {
                ArmFinding::Crossing(reached[0])
            } else {
                spec_arm_finding(nodes, reached.drop_first())
            },
            None => spec_arm_finding(nodes, reached.drop_first()),
        }
    }
}

/// One one-way arm of a junction, for dual-carriageway counting: its name,
/// whether it points at the junction, and its bearing in degrees.
pub ghost struct OnewayArm {
    pub name: Seq<char>,
    pub points_at: bool,
    pub bearing: int,
}

/// Count pairs of same-named one-way arms running opposite ways whose
/// bearings differ by more than 45 degrees from exact reversal: the two
/// carriageways of one divided road.
pub open spec fn spec_dual_splits(arms: Seq<OnewayArm>) -> (nat, Seq<OnewayArm>)
    decreases arms.len(),
{
    if arms.len() == 0 {
        (0, Seq::empty())
    } else {
        let (count, acc) = spec_dual_splits(arms.drop_last());
        let a = arms.last();
        if exists|j: int|
            0 <= j < acc.len() && (#[trigger] acc[j]).name == a.name && acc[j].points_at
                == !a.points_at && abs_int(
                spec_shortest_rotation(a.bearing, acc[j].bearing),
            ) > 45 {
            ((count + 1) as nat, acc)
        } else {
            (count, acc.push(a))
        }
    }
}

pub open spec fn abs_int(x: int) -> int {
    if x < 0 {
        -x
    } else {
        x
    }
}

/// Whether a junction counts as complete: the satisfied arms (crossings plus
/// explicit non-crossings) cover every arm that is neither half of a dual
/// carriageway split nor a roundabout arm.
pub open spec fn spec_junction_complete(
    crossings: int,
    explicit_non_crossings: int,
    arms: int,
    splits: int,
    roundabout_arms: int,
) -> bool {
    crossings + explicit_non_crossings >= arms - splits - roundabout_arms
}

/// The junction completeness bound, exactly: satisfied arms must reach the
/// arm count less the dual-carriageway splits and roundabout arms.
pub fn junction_complete(
    crossings: u64,
    explicit_non_crossings: u64,
    arms: u64,
    splits: u64,
    roundabout_arms: u64,
) -> (r: bool)
    requires
        crossings < 0x1000_0000,
        explicit_non_crossings < 0x1000_0000,
    ensures
        r == spec_junction_complete(
            crossings as int,
            explicit_non_crossings as int,
            arms as int,
            splits as int,
            roundabout_arms as int,
        ),
{
    let have = crossings + explicit_non_crossings;
    // The right side may go negative; compare in signed space.
    let need: i128 = arms as i128 - splits as i128 - roundabout_arms as i128;
    (have as i128) >= need
}

impl Speedwalk {
    /// Walk a way from a node, forwards or backwards, collecting the nodes
    /// within the distance budget.
    pub fn slice_way(&self, way: i64, start: i64, forwards: bool, max_distance: u64) -> (r: Vec<
        i64,
    >)
        requires
            forall|i: int|
                0 <= i < self.derived_ways@.len() ==> crate::geomath::coords_bounded(
                    (#[trigger] self.derived_ways@[i]).1.linestring,
                ),
            max_distance < 0x1000_0000_0000,
        ensures
            match id_find(self.derived_ways@, way) {
                Some(w) => r@ == spec_slice_way(w, start, forwards, max_distance as int),
                None => r@ == Seq::<i64>::empty(),
            },
    {
        let found = self.derived_ways.get(way);
        let w = match found {
            Some(w) => w,
            None => {
                let r: Vec<i64> = Vec::new();
                proof {
                    assert(r@ =~= Seq::<i64>::empty());
                }
                return r;
            },
        };
        proof {
            crate::edits::lemma_id_find_pos(self.derived_ways@, way);
            let j = choose|j: int|
                0 <= j < self.derived_ways@.len() && self.derived_ways@[j].0 == way
                    && self.derived_ways@[j].1 == id_find(self.derived_ways@, way).unwrap();
            assert(crate::geomath::coords_bounded(self.derived_ways@[j].1.linestring));
        }
        let (ids, ls): (Vec<i64>, Vec<(i64, i64)>) = if forwards {
            (crate::store::copy_id_vec(&w.node_ids), crate::store::copy_pt_vec(&w.linestring))
        } else {
            (reverse_ids(&w.node_ids), reverse_pts(&w.linestring))
        };
        let ghost idsv = ids@;
        let ghost lsv = ls@;
        proof {
            if forwards {
                assert(idsv == w@.node_ids);
                assert(lsv == w@.linestring);
            } else {
                assert(idsv == w@.node_ids.reverse());
                assert(lsv == w@.linestring.reverse());
            }
            assert(crate::geomath::coords_bounded(lsv)) by {
                if forwards {
                } else {
                    assert forall|i: int| 0 <= i < lsv.len() implies {
                        let p = #[trigger] lsv[i];
                        -0x4000_0000 <= p.0 <= 0x4000_0000 && -0x4000_0000 <= p.1 <= 0x4000_0000
                    } by {
                        assert(lsv[i] == w@.linestring[lsv.len() - 1 - i]);
                    }
                }
            }
        }
        // Find the start node.
        let n = ids.len();
        let mut p: usize = 0;
        let mut found_start = false;
        proof {
            assert(idsv.skip(0) =~= idsv);
        }
        while p < n && !found_start
            invariant
                n == idsv.len(),
                ids@ == idsv,
                p <= n,
                found_start ==> p < n && first_index(idsv, start) == Some(p as int),
                !found_start ==> first_index(idsv, start) == match first_index(
                    idsv.skip(p as int),
                    start,
                ) {
                    Some(q) => Some(q + p),
                    None => None,
                },
            decreases n - p + (if found_start {
                0int
            } else {
                1int
            }),
        {
            proof {
                assert(idsv.skip(p as int)[0] == idsv[p as int]);
                assert(idsv.skip(p as int).drop_first() =~= idsv.skip(p as int + 1));
            }
            if ids[p] == start {
                found_start = true;
            } else {
                p += 1;
            }
        }
        if !found_start {
            proof {
                assert(idsv.skip(n as int) =~= Seq::<i64>::empty());
                assert(first_index(idsv, start) is None);
            }
            let r: Vec<i64> = Vec::new();
            proof {
                assert(r@ =~= Seq::<i64>::empty());
            }
            return r;
        }
        // Walk while the budget lasts.
        let mut r: Vec<i64> = Vec::new();
        let mut budget: u64 = max_distance;
        let mut i: usize = p;
        r.push(ids[i]);
        let ghost start_i = p as int;
        let mut more = if i + 1 < n && ls.len() == n {
            crate::geomath::segment_length(ls[i], ls[i + 1]) <= budget
        } else {
            false
        };
        while more
            invariant
                more == (i + 1 < n && lsv.len() == idsv.len() && seg_len(
                    lsv[i as int],
                    lsv[i as int + 1],
                ) <= budget),
                n == idsv.len(),
                ids@ == idsv,
                ls@ == lsv,
                crate::geomath::coords_bounded(lsv),
                start_i <= i < n,
                budget <= max_distance,
                max_distance < 0x1000_0000_0000,
                slice_from(idsv, lsv, start_i, max_distance as int) == r@.drop_last() + slice_from(
                    idsv,
                    lsv,
                    i as int,
                    budget as int,
                ),
                r@.len() >= 1,
                r@.last() == idsv[i as int],
            decreases n - i,
        {
            let d = crate::geomath::segment_length(ls[i], ls[i + 1]);
            proof {
                assert(slice_from(idsv, lsv, i as int, budget as int) == seq![idsv[i as int]]
                    + slice_from(
                    idsv,
                    lsv,
                    i as int + 1,
                    budget as int - seg_len(lsv[i as int], lsv[i as int + 1]),
                ));
                assert((r@.drop_last() + (seq![idsv[i as int]] + slice_from(
                    idsv,
                    lsv,
                    i as int + 1,
                    budget as int - d,
                ))) =~= (r@ + slice_from(idsv, lsv, i as int + 1, budget as int - d)));
            }
            budget = budget - d;
            i += 1;
            r.push(ids[i]);
            proof {
                assert(r@.drop_last() =~= r@.subrange(0, r@.len() - 1));
            }
            more = if i + 1 < n && ls.len() == n {
                crate::geomath::segment_length(ls[i], ls[i + 1]) <= budget
            } else {
                false
            };
        }
        proof {
            assert(slice_from(idsv, lsv, i as int, budget as int) == seq![idsv[i as int]]);
            assert(r@ =~= r@.drop_last() + seq![idsv[i as int]]);
        }
        r
    }

    /// The first crossing-relevant node along a walked arm.
    pub fn arm_finding(&self, reached: &Vec<i64>) -> (r: ArmFinding)
        ensures
            r == spec_arm_finding(self.derived_nodes@, reached@),
    {
        let ghost rv = reached@;
        let n = reached.len();
        let mut i: usize = 0;
        proof {
            assert(rv.skip(0) =~= rv);
        }
        while i < n
            invariant
                n == rv.len(),
                reached@ == rv,
                i <= n,
                spec_arm_finding(self.derived_nodes@, rv) == spec_arm_finding(
                    self.derived_nodes@,
                    rv.skip(i as int),
                ),
            decreases n - i,
        {
            proof {
                assert(rv.skip(i as int)[0] == rv[i as int]);
                assert(rv.skip(i as int).drop_first() =~= rv.skip(i as int + 1));
            }
            let found = self.derived_nodes.get(reached[i]);
            match found {
                Some(nd) => {
                    if nd.is_explicit_crossing_no() {
                        return ArmFinding::ExplicitNo(reached[i]);
                    }
                    if nd.is_crossing() {
                        return ArmFinding::Crossing(reached[i]);
                    }
                },
                None => {},
            }
            i += 1;
        }
        proof {
            assert(rv.skip(n as int) =~= Seq::<i64>::empty());
        }
        ArmFinding::Nothing
    }
}

/// A reversed copy of an identifier list.
fn reverse_ids(v: &Vec<i64>) -> (r: Vec<i64>)
    ensures
        r@ == v@.reverse(),
{
    let n = v.len();
    let mut r: Vec<i64> = Vec::new();
    let mut i: usize = 0;
    while i < n
        invariant
            n == v@.len(),
            i <= n,
            r@.len() == i,
            forall|j: int| 0 <= j < i ==> r@[j] == v@[n - 1 - j],
        decreases n - i,
    {
        r.push(v[n - 1 - i]);
        i += 1;
    }
    proof {
        assert(r@ =~= v@.reverse());
    }
    r
}

/// A reversed copy of a point list.
fn reverse_pts(v: &Vec<(i64, i64)>) -> (r: Vec<(i64, i64)>)
    ensures
        r@ == v@.reverse(),
{
    let n = v.len();
    let mut r: Vec<(i64, i64)> = Vec::new();
    let mut i: usize = 0;
    while i < n
        invariant
            n == v@.len(),
            i <= n,
            r@.len() == i,
            forall|j: int| 0 <= j < i ==> r@[j] == v@[n - 1 - j],
        decreases n - i,
    {
        r.push(v[n - 1 - i]);
        i += 1;
    }
    proof {
        assert(r@ =~= v@.reverse());
    }
    r
}

/// Count dual-carriageway splits from one-way arm descriptions, mirroring
/// `spec_dual_splits` exactly: a new arm that matches a seen arm by name,
/// opposite direction, and a bearing far from exact reversal counts as a
/// split and is not recorded again.
pub fn count_dual_splits(arms: &Vec<(String, bool, i64)>) -> (r: u64)
    requires
        arms@.len() < 0x1000_0000,
        forall|i: int| 0 <= i < arms@.len() ==> -360 <= (#[trigger] arms@[i]).2 <= 360,
    ensures
        r == spec_dual_splits(
            arms@.map_values(
                |a: (String, bool, i64)| OnewayArm {
                    name: a.0@,
                    points_at: a.1,
                    bearing: a.2 as int,
                },
            ),
        ).0,
{
    let ghost av = arms@.map_values(
        |a: (String, bool, i64)| OnewayArm { name: a.0@, points_at: a.1, bearing: a.2 as int },
    );
    let mut count: u64 = 0;
    let mut seen: Vec<(String, bool, i64)> = Vec::new();
    let n = arms.len();
    let mut i: usize = 0;
    proof {
        assert(av.subrange(0, 0) =~= Seq::<OnewayArm>::empty());
        assert(seen@.map_values(
            |a: (String, bool, i64)| OnewayArm { name: a.0@, points_at: a.1, bearing: a.2 as int },
        ) =~= spec_dual_splits(av.subrange(0, 0)).1);
    }
    while i < n
        invariant
            n == av.len(),
            av == arms@.map_values(
                |a: (String, bool, i64)| OnewayArm {
                    name: a.0@,
                    points_at: a.1,
                    bearing: a.2 as int,
                },
            ),
            forall|k: int| 0 <= k < arms@.len() ==> -360 <= (#[trigger] arms@[k]).2 <= 360,
            i <= n,
            count <= i,
            count == spec_dual_splits(av.subrange(0, i as int)).0,
            seen@.map_values(
                |a: (String, bool, i64)| OnewayArm {
                    name: a.0@,
                    points_at: a.1,
                    bearing: a.2 as int,
                },
            ) == spec_dual_splits(av.subrange(0, i as int)).1,
            forall|k: int| 0 <= k < seen@.len() ==> -360 <= (#[trigger] seen@[k]).2 <= 360,
        decreases n - i,
    {
        proof {
            let cur = av.subrange(0, i as int + 1);
            assert(cur.drop_last() =~= av.subrange(0, i as int));
            assert(cur.last() == av[i as int]);
        }
        let ghost acc = spec_dual_splits(av.subrange(0, i as int)).1;
        let m = seen.len();
        let mut j: usize = 0;
        let mut matched = false;
        while j < m && !matched
            invariant
                m == seen@.len(),
                i < arms@.len(),
                av == arms@.map_values(
                    |a: (String, bool, i64)| OnewayArm {
                        name: a.0@,
                        points_at: a.1,
                        bearing: a.2 as int,
                    },
                ),
                forall|k: int| 0 <= k < arms@.len() ==> -360 <= (#[trigger] arms@[k]).2 <= 360,
                forall|k: int| 0 <= k < seen@.len() ==> -360 <= (#[trigger] seen@[k]).2 <= 360,
                acc == seen@.map_values(
                    |a: (String, bool, i64)| OnewayArm {
                        name: a.0@,
                        points_at: a.1,
                        bearing: a.2 as int,
                    },
                ),
                j <= m,
                matched ==> exists|k: int|
                    0 <= k < acc.len() && (#[trigger] acc[k]).name == av[i as int].name
                        && acc[k].points_at == !av[i as int].points_at && abs_int(
                        spec_shortest_rotation(av[i as int].bearing, acc[k].bearing),
                    ) > 45,
                -360 <= av[i as int].bearing <= 360,
                !matched ==> forall|k: int|
                    0 <= k < j ==> !((#[trigger] acc[k]).name == av[i as int].name && acc[
                        k].points_at == !av[i as int].points_at && abs_int(
                        spec_shortest_rotation(av[i as int].bearing, acc[k].bearing),
                    ) > 45),
            decreases m - j,
        {
            let name_eq = crate::strutil::str_eq(seen[j].0.as_str(), arms[i].0.as_str());
            let dir_opp = seen[j].1 == !arms[i].1;
            let rot = crate::geomath::shortest_rotation(arms[i].2, seen[j].2);
            let far = if rot < 0 {
                -rot > 45
            } else {
                rot > 45
            };
            if name_eq && dir_opp && far {
                proof {
                    assert(acc[j as int].name == av[i as int].name);
                    assert(acc[j as int].points_at == !av[i as int].points_at);
                    assert(abs_int(
                        spec_shortest_rotation(av[i as int].bearing, acc[j as int].bearing),
                    ) > 45);
                }
                matched = true;
            }
            j += 1;
        }
        if matched {
            count = count + 1;
            proof {
                assert(spec_dual_splits(av.subrange(0, i as int + 1)).0 == spec_dual_splits(
                    av.subrange(0, i as int),
                ).0 + 1);
                assert(spec_dual_splits(av.subrange(0, i as int + 1)).1 == acc);
            }
        } else {
            proof {
                assert(forall|k: int|
                    0 <= k < acc.len() ==> !((#[trigger] acc[k]).name == av[i as int].name && acc[
                        k].points_at == !av[i as int].points_at && abs_int(
                        spec_shortest_rotation(av[i as int].bearing, acc[k].bearing),
                    ) > 45));
                assert(spec_dual_splits(av.subrange(0, i as int + 1)).0 == spec_dual_splits(
                    av.subrange(0, i as int),
                ).0);
                assert(spec_dual_splits(av.subrange(0, i as int + 1)).1 == acc.push(
                    av[i as int],
                ));
            }
            let ghost seen0 = seen@.map_values(
                |a: (String, bool, i64)| OnewayArm {
                    name: a.0@,
                    points_at: a.1,
                    bearing: a.2 as int,
                },
            );
            seen.push((clone_string(&arms[i].0), arms[i].1, arms[i].2));
            proof {
                assert(seen@.map_values(
                    |a: (String, bool, i64)| OnewayArm {
                        name: a.0@,
                        points_at: a.1,
                        bearing: a.2 as int,
                    },
                ) =~= seen0.push(av[i as int]));
            }
        }
        i += 1;
    }
    proof {
        assert(av.subrange(0, n as int) =~= av);
    }
    count
}

fn clone_string(s: &String) -> (r: String)
    ensures
        r@ == s@,
{
    s.clone()
}

/// The first edge position with this identifier, if any.
pub open spec fn edge_pos(es: Seq<crate::graph::EdgeV>, id: EdgeID) -> Option<int>
    decreases es.len(),
{
    if es.len() == 0 {
        None
    } else if es[0].id == id {
        Some(0)
    } else {
        match edge_pos(es.drop_first(), id) {
            Some(k) => Some(k + 1),
            None => None,
        }
    }
}

/// The position of an edge in the graph's edge list, by identifier.
fn find_edge(graph: &Graph, id: EdgeID) -> (r: Option<usize>)
    ensures
        match r {
            Some(k) => Some(k as int) == edge_pos(graph.eview(), id) && k < graph.edges@.len(),
            None => edge_pos(graph.eview(), id) is None,
        },
{
    let ghost es = graph.eview();
    let n = graph.edges.len();
    let mut k: usize = 0;
    let mut found = false;
    proof {
        assert(es.skip(0) =~= es);
    }
    while k < n && !found
        invariant
            n == es.len(),
            n == graph.edges@.len(),
            es == graph.eview(),
            k <= n,
            found ==> k < n && edge_pos(es, id) == Some(k as int),
            !found ==> edge_pos(es, id) == match edge_pos(es.skip(k as int), id) {
                Some(q) => Some(q + k),
                None => None,
            },
        decreases n - k + (if found {
            0int
        } else {
            1int
        }),
    {
        proof {
            assert(es.skip(k as int)[0] == es[k as int]);
            assert(es.skip(k as int).drop_first() =~= es.skip(k as int + 1));
        }
        if graph.edges[k].id == id {
            found = true;
        } else {
            k += 1;
        }
    }
    if found {
        Some(k)
    } else {
        proof {
            assert(es.skip(n as int) =~= Seq::<crate::graph::EdgeV>::empty());
        }
        None
    }
}

/// Is an arm left out of the audit by the options?
pub open spec fn arm_skipped(options: Options, t: Seq<(Seq<char>, Seq<char>)>) -> bool {
    ||| (options.ignore_utility_roads && (tag_is(t, "highway"@, "service"@) || tag_is(
        t,
        "highway"@,
        "track"@,
    )))
    ||| (options.ignore_cycleways && tag_is(t, "highway"@, "cycleway"@))
    ||| (options.ignore_footways && (tag_is(t, "highway"@, "footway"@) || tag_is(
        t,
        "highway"@,
        "path"@,
    )))
}

/// Everything one pass over an intersection's incident edges accumulates.
pub ghost struct ArmAcc {
    pub arms: Seq<(EdgeID, Seq<i64>, bool)>,
    pub crossings: Seq<i64>,
    pub explicit_non_crossings: Seq<i64>,
    pub roundabouts: nat,
    pub oneway: Seq<OnewayArm>,
    pub any_road: bool,
    pub any_severance: bool,
}

pub open spec fn empty_arm_acc() -> ArmAcc {
    ArmAcc {
        arms: Seq::empty(),
        crossings: Seq::empty(),
        explicit_non_crossings: Seq::empty(),
        roundabouts: 0,
        oneway: Seq::empty(),
        any_road: false,
        any_severance: false,
    }
}

/// One incident edge folded into the accumulator: resolve it and its way
/// (severance counts before the ignore filters), then, if the arm survives,
/// walk it, classify its finding, and record its lists.
pub open spec fn arm_step(
    nodes: Seq<(i64, NodeView)>,
    es: Seq<crate::graph::EdgeV>,
    ways: Seq<(i64, WayView)>,
    a: ArmAcc,
    eid: EdgeID,
    iid: IntersectionID,
    osm_node: i64,
    options: Options,
    bearings: Seq<i64>,
) -> ArmAcc {
    match edge_pos(es, eid) {
        None => a,
        Some(k) => match id_find(ways, es[k].osm_way) {
            None => a,
            Some(w) => {
                let a1 = ArmAcc { any_severance: a.any_severance || crate::store::spec_is_severance(w.tags), ..a };
                if arm_skipped(options, w.tags) {
                    a1
                } else {
                    let reached = spec_slice_way(
                        w,
                        osm_node,
                        es[k].src == iid,
                        options.max_distance as int,
                    );
                    let finding = spec_arm_finding(nodes, reached);
                    let is_roundabout = options.ignore_roundabouts && (tag_is(
                        w.tags,
                        "junction"@,
                        "circular"@,
                    ) || tag_is(w.tags, "junction"@, "roundabout"@));
                    let satisfied = !(finding is Nothing) || is_roundabout;
                    ArmAcc {
                        arms: a1.arms.push((eid, reached, satisfied)),
                        crossings: match finding {
                            ArmFinding::Crossing(n) => crate::osc::ins_id(a1.crossings, n),
                            _ => a1.crossings,
                        },
                        explicit_non_crossings: match finding {
                            ArmFinding::ExplicitNo(n) => crate::osc::ins_id(
                                a1.explicit_non_crossings,
                                n,
                            ),
                            _ => a1.explicit_non_crossings,
                        },
                        roundabouts: a1.roundabouts + if is_roundabout {
                            1nat
                        } else {
                            0nat
                        },
                        oneway: if w.kind.spec_is_road() && tag_is(w.tags, "oneway"@, "yes"@)
                            && tag_get(w.tags, "name"@) is Some {
                            a1.oneway.push(
                                OnewayArm {
                                    name: tag_get(w.tags, "name"@).unwrap(),
                                    points_at: es[k].dst == iid,
                                    bearing: if 0 <= k < bearings.len() {
                                        bearings[k] as int
                                    } else {
                                        0
                                    },
                                },
                            )
                        } else {
                            a1.oneway
                        },
                        any_road: a1.any_road || w.kind.spec_is_road(),
                        any_severance: a1.any_severance,
                    }
                }
            },
        },
    }
}

pub open spec fn arms_acc(
    nodes: Seq<(i64, NodeView)>,
    es: Seq<crate::graph::EdgeV>,
    ways: Seq<(i64, WayView)>,
    eids: Seq<EdgeID>,
    iid: IntersectionID,
    osm_node: i64,
    options: Options,
    bearings: Seq<i64>,
) -> ArmAcc
    decreases eids.len(),
{
    if eids.len() == 0 {
        empty_arm_acc()
    } else {
        arm_step(
            nodes,
            es,
            ways,
            arms_acc(nodes, es, ways, eids.drop_last(), iid, osm_node, options, bearings),
            eids.last(),
            iid,
            osm_node,
            options,
            bearings,
        )
    }
}

pub ghost struct JunctionV {
    pub intersection: IntersectionID,
    pub osm_node: i64,
    pub point: (i64, i64),
    pub arms: Seq<(EdgeID, Seq<i64>, bool)>,
    pub number_dual_carriageway_splits: nat,
    pub number_roundabout_arms: nat,
    pub crossings: Seq<i64>,
    pub explicit_non_crossings: Seq<i64>,
    pub complete: bool,
}

impl View for Junction {
    type V = JunctionV;

    open spec fn view(&self) -> JunctionV {
        JunctionV {
            intersection: self.intersection,
            osm_node: self.osm_node,
            point: self.point,
            arms: self.arms@.map_values(|a: (EdgeID, Vec<i64>, bool)| (a.0, a.1@, a.2)),
            number_dual_carriageway_splits: self.number_dual_carriageway_splits as nat,
            number_roundabout_arms: self.number_roundabout_arms as nat,
            crossings: self.crossings@,
            explicit_non_crossings: self.explicit_non_crossings@,
            complete: self.complete,
        }
    }
}

/// The junction one intersection yields, if it qualifies: not itself tagged
/// as a crossing, at least one surviving road arm, a severance among its
/// incident ways (or no major-road restriction), and more than two arms net
/// of dual-carriageway splits.
pub open spec fn spec_junction(
    nodes: Seq<(i64, NodeView)>,
    es: Seq<crate::graph::EdgeV>,
    ways: Seq<(i64, WayView)>,
    inter: crate::graph::IntersectionV,
    options: Options,
    bearings: Seq<i64>,
) -> Option<JunctionV> {
    let crossing_tagged = match id_find(nodes, inter.osm_node) {
        Some(nd) => tag_is(nd.tags, "highway"@, "crossing"@),
        None => false,
    };
    if crossing_tagged {
        None
    } else {
        let a = arms_acc(nodes, es, ways, inter.edges, inter.id, inter.osm_node, options, bearings);
        let splits = spec_dual_splits(a.oneway).0;
        if a.any_road && (a.any_severance || !options.only_major_roads) && a.arms.len() as int
            - splits as int > 2 {
            Some(
                JunctionV {
                    intersection: inter.id,
                    osm_node: inter.osm_node,
                    point: inter.point,
                    arms: a.arms,
                    number_dual_carriageway_splits: splits,
                    number_roundabout_arms: a.roundabouts,
                    crossings: a.crossings,
                    explicit_non_crossings: a.explicit_non_crossings,
                    complete: spec_junction_complete(
                        a.crossings.len() as int,
                        a.explicit_non_crossings.len() as int,
                        a.arms.len() as int,
                        splits as int,
                        a.roundabouts as int,
                    ),
                },
            )
        } else {
            None
        }
    }
}

/// Every qualifying intersection's junction, in intersection order.
pub open spec fn junction_list(
    nodes: Seq<(i64, NodeView)>,
    es: Seq<crate::graph::EdgeV>,
    ways: Seq<(i64, WayView)>,
    inters: Seq<crate::graph::IntersectionV>,
    options: Options,
    bearings: Seq<i64>,
) -> Seq<JunctionV>
    decreases inters.len(),
{
    if inters.len() == 0 {
        Seq::empty()
    } else {
        junction_list(nodes, es, ways, inters.drop_last(), options, bearings) + match spec_junction(
            nodes,
            es,
            ways,
            inters.last(),
            options,
            bearings,
        ) {
            Some(j) => seq![j],
            None => Seq::empty(),
        }
    }
}

impl Speedwalk {
    /// Find every junction worth auditing, exactly: one entry, in
    /// intersection order, for each intersection whose node is not tagged
    /// as a crossing, with at least one surviving road arm, a severance
    /// among its incident ways (or no major-road restriction), and more
    /// than two arms net of dual-carriageway splits. Each arm carries the
    /// nodes walked along its way and whether a crossing (or roundabout
    /// membership) satisfies it; each junction's `complete` flag is the
    /// completeness bound over its own counts. Arm bearings, in whole
    /// degrees per edge, come from the caller.
    #[verifier::rlimit(100)]
    pub fn find_junctions(&self, graph: &Graph, options: &Options, bearings: &Vec<i64>) -> (r: Vec<
        Junction,
    >)
        requires
            forall|i: int|
                0 <= i < self.derived_ways@.len() ==> crate::geomath::coords_bounded(
                    (#[trigger] self.derived_ways@[i]).1.linestring,
                ),
            options.max_distance < 0x1000_0000_0000,
            bearings@.len() == graph.edges@.len(),
            forall|i: int| 0 <= i < bearings@.len() ==> -360 <= (#[trigger] bearings@[i]) <= 360,
            graph.edges@.len() < 0x100_0000,
            forall|i: int|
                0 <= i < graph.intersections@.len() ==> (#[trigger] graph.intersections@[
                    i]).edges@.len() < 0x100_0000,
        ensures
            r@.map_values(|j: Junction| j@) == junction_list(
                self.derived_nodes@,
                graph.eview(),
                self.derived_ways@,
                graph.iview(),
                *options,
                bearings@,
            ),
    {
        let ghost es = graph.eview();
        let ghost iv = graph.iview();
        let ghost nodesv = self.derived_nodes@;
        let ghost waysv = self.derived_ways@;
        let mut r: Vec<Junction> = Vec::new();
        let n_int = graph.intersections.len();
        let mut a: usize = 0;
        proof {
            assert(iv.subrange(0, 0) =~= Seq::<crate::graph::IntersectionV>::empty());
            assert(r@.map_values(|j: Junction| j@) =~= junction_list(
                nodesv,
                es,
                waysv,
                iv.subrange(0, 0),
                *options,
                bearings@,
            ));
        }
        while a < n_int
            invariant
                n_int == graph.intersections@.len(),
                n_int == iv.len(),
                es == graph.eview(),
                iv == graph.iview(),
                nodesv == self.derived_nodes@,
                waysv == self.derived_ways@,
                forall|i: int|
                    0 <= i < waysv.len() ==> crate::geomath::coords_bounded(
                        (#[trigger] waysv[i]).1.linestring,
                    ),
                options.max_distance < 0x1000_0000_0000,
                bearings@.len() == graph.edges@.len(),
                bearings@.len() == es.len(),
                forall|i: int|
                    0 <= i < bearings@.len() ==> -360 <= (#[trigger] bearings@[i]) <= 360,
                graph.edges@.len() < 0x100_0000,
                forall|i: int|
                    0 <= i < iv.len() ==> (#[trigger] graph.intersections@[i]).edges@.len()
                        < 0x100_0000,
                a <= n_int,
                r@.map_values(|j: Junction| j@) == junction_list(
                    nodesv,
                    es,
                    waysv,
                    iv.subrange(0, a as int),
                    *options,
                    bearings@,
                ),
            decreases n_int - a,
        {
            proof {
                let cur = iv.subrange(0, a as int + 1);
                assert(cur.drop_last() =~= iv.subrange(0, a as int));
                assert(cur.last() == iv[a as int]);
            }
            let ghost inter = iv[a as int];
            let ghost rv0 = r@.map_values(|j: Junction| j@);
            let iid = graph.intersections[a].id;
            let osm_node = graph.intersections[a].osm_node;
            let point = graph.intersections[a].point;
            let node_is_crossing_tagged = match self.derived_nodes.get(osm_node) {
                Some(nd) => nd.tags.is("highway", "crossing"),
                None => false,
            };
            if !node_is_crossing_tagged {
                let ghost eids = inter.edges;
                let mut any_severance = false;
                let mut any_roads = false;
                let mut arms: Vec<(EdgeID, Vec<i64>, bool)> = Vec::new();
                let mut crossings: Vec<i64> = Vec::new();
                let mut explicit_non_crossings: Vec<i64> = Vec::new();
                let mut number_roundabout_arms: u64 = 0;
                let mut oneway_arms: Vec<(String, bool, i64)> = Vec::new();
                let n_inc = graph.intersections[a].edges.len();
                let mut e: usize = 0;
                proof {
                    assert(eids.subrange(0, 0) =~= Seq::<EdgeID>::empty());
                    assert(arms@.map_values(|x: (EdgeID, Vec<i64>, bool)| (x.0, x.1@, x.2))
                        =~= empty_arm_acc().arms);
                    assert(crossings@ =~= empty_arm_acc().crossings);
                    assert(explicit_non_crossings@ =~= empty_arm_acc().explicit_non_crossings);
                    assert(oneway_arms@.map_values(
                        |x: (String, bool, i64)| OnewayArm {
                            name: x.0@,
                            points_at: x.1,
                            bearing: x.2 as int,
                        },
                    ) =~= empty_arm_acc().oneway);
                }
                while e < n_inc
                    invariant
                        a < iv.len(),
                        n_inc == eids.len(),
                        eids == iv[a as int].edges,
                        iid == iv[a as int].id,
                        osm_node == iv[a as int].osm_node,
                        graph.intersections@[a as int]@ == iv[a as int],
                        es == graph.eview(),
                        iv == graph.iview(),
                        nodesv == self.derived_nodes@,
                        waysv == self.derived_ways@,
                        forall|i: int|
                            0 <= i < waysv.len() ==> crate::geomath::coords_bounded(
                                (#[trigger] waysv[i]).1.linestring,
                            ),
                        options.max_distance < 0x1000_0000_0000,
                        bearings@.len() == graph.edges@.len(),
                        bearings@.len() == es.len(),
                        forall|i: int|
                            0 <= i < bearings@.len() ==> -360 <= (#[trigger] bearings@[i]) <= 360,
                        graph.edges@.len() < 0x100_0000,
                        n_inc < 0x100_0000,
                        e <= n_inc,
                        ({
                            let acc = arms_acc(
                                nodesv,
                                es,
                                waysv,
                                eids.subrange(0, e as int),
                                iid,
                                osm_node,
                                *options,
                                bearings@,
                            );
                            &&& arms@.map_values(|x: (EdgeID, Vec<i64>, bool)| (x.0, x.1@, x.2))
                                == acc.arms
                            &&& crossings@ == acc.crossings
                            &&& explicit_non_crossings@ == acc.explicit_non_crossings
                            &&& number_roundabout_arms == acc.roundabouts
                            &&& oneway_arms@.map_values(
                                |x: (String, bool, i64)| OnewayArm {
                                    name: x.0@,
                                    points_at: x.1,
                                    bearing: x.2 as int,
                                },
                            ) == acc.oneway
                            &&& any_roads == acc.any_road
                            &&& any_severance == acc.any_severance
                            &&& acc.arms.len() <= e
                            &&& acc.crossings.len() <= e
                            &&& acc.explicit_non_crossings.len() <= e
                            &&& acc.roundabouts <= e
                            &&& acc.oneway.len() <= e
                        }),
                        forall|i: int|
                            0 <= i < oneway_arms@.len() ==> -360 <= (#[trigger] oneway_arms@[i]).2
                                <= 360,
                    decreases n_inc - e,
                {
                    proof {
                        let cur = eids.subrange(0, e as int + 1);
                        assert(cur.drop_last() =~= eids.subrange(0, e as int));
                        assert(cur.last() == eids[e as int]);
                        assert(eids[e as int] == graph.intersections@[a as int].edges@[e as int]);
                    }
                    let ghost acc0 = arms_acc(
                        nodesv,
                        es,
                        waysv,
                        eids.subrange(0, e as int),
                        iid,
                        osm_node,
                        *options,
                        bearings@,
                    );
                    let eid = graph.intersections[a].edges[e];
                    let found = find_edge(graph, eid);
                    match found {
                        Some(ek) => {
                            let way_id = graph.edges[ek].osm_way;
                            proof {
                                assert(es[ek as int] == graph.edges@[ek as int]@);
                            }
                            let wfound = self.derived_ways.get(way_id);
                            match wfound {
                                Some(way) => {
                                    if way.is_severance() {
                                        any_severance = true;
                                    }
                                    let skip_arm = (options.ignore_utility_roads && (way.tags.is(
                                        "highway",
                                        "service",
                                    ) || way.tags.is("highway", "track"))) || (
                                    options.ignore_cycleways && way.tags.is("highway", "cycleway"))
                                        || (options.ignore_footways && (way.tags.is(
                                        "highway",
                                        "footway",
                                    ) || way.tags.is("highway", "path")));
                                    if !skip_arm {
                                        if way.kind.is_road() {
                                            any_roads = true;
                                        }
                                        let forwards = graph.edges[ek].src == iid;
                                        let reached = self.slice_way(
                                            way_id,
                                            osm_node,
                                            forwards,
                                            options.max_distance,
                                        );
                                        let ghost reachedv = reached@;
                                        let finding = self.arm_finding(&reached);
                                        let ghost findingv = finding;
                                        let mut satisfied = match finding {
                                            ArmFinding::ExplicitNo(n) => {
                                                crate::osc::ins_id_exec(
                                                    &mut explicit_non_crossings,
                                                    n,
                                                );
                                                true
                                            },
                                            ArmFinding::Crossing(n) => {
                                                crate::osc::ins_id_exec(&mut crossings, n);
                                                true
                                            },
                                            ArmFinding::Nothing => false,
                                        };
                                        let is_roundabout = options.ignore_roundabouts
                                            && (way.tags.is("junction", "circular") || way.tags.is(
                                            "junction",
                                            "roundabout",
                                        ));
                                        if is_roundabout {
                                            satisfied = true;
                                            number_roundabout_arms = number_roundabout_arms + 1;
                                        }
                                        if way.kind.is_road() && way.tags.is("oneway", "yes") {
                                            let name = way.tags.get("name");
                                            match name {
                                                Some(nm) => {
                                                    let dir = graph.edges[ek].dst == iid;
                                                    let ghost ow0 = oneway_arms@.map_values(
                                                        |x: (String, bool, i64)| OnewayArm {
                                                            name: x.0@,
                                                            points_at: x.1,
                                                            bearing: x.2 as int,
                                                        },
                                                    );
                                                    oneway_arms.push(
                                                        (nm.clone(), dir, bearings[ek]),
                                                    );
                                                    proof {
                                                        assert(oneway_arms@.map_values(
                                                            |x: (String, bool, i64)| OnewayArm {
                                                                name: x.0@,
                                                                points_at: x.1,
                                                                bearing: x.2 as int,
                                                            },
                                                        ) =~= ow0.push(
                                                            OnewayArm {
                                                                name: nm@,
                                                                points_at: dir,
                                                                bearing: bearings@[ek as int]
                                                                    as int,
                                                            },
                                                        ));
                                                    }
                                                },
                                                None => {},
                                            }
                                        }
                                        let ghost arms0 = arms@.map_values(
                                            |x: (EdgeID, Vec<i64>, bool)| (x.0, x.1@, x.2),
                                        );
                                        arms.push((eid, reached, satisfied));
                                        proof {
                                            assert(arms@.map_values(
                                                |x: (EdgeID, Vec<i64>, bool)| (x.0, x.1@, x.2),
                                            ) =~= arms0.push((eid, reachedv, satisfied)));
                                            crate::osc::lemma_ins_id_len(acc0.crossings, 0);
                                            match findingv {
                                                ArmFinding::Crossing(n) => {
                                                    crate::osc::lemma_ins_id_len(
                                                        acc0.crossings,
                                                        n,
                                                    );
                                                },
                                                ArmFinding::ExplicitNo(n) => {
                                                    crate::osc::lemma_ins_id_len(
                                                        acc0.explicit_non_crossings,
                                                        n,
                                                    );
                                                },
                                                ArmFinding::Nothing => {},
                                            }
                                        }
                                    }
                                },
                                None => {},
                            }
                        },
                        None => {},
                    }
                    e += 1;
                }
                proof {
                    assert(eids.subrange(0, n_inc as int) =~= eids);
                }
                let ghost acc = arms_acc(
                    nodesv,
                    es,
                    waysv,
                    eids,
                    iid,
                    osm_node,
                    *options,
                    bearings@,
                );
                let splits = count_dual_splits(&oneway_arms);
                let qualifying = any_roads && (any_severance || !options.only_major_roads)
                    && (arms.len() as i128) - (splits as i128) > 2;
                if qualifying {
                    let complete = junction_complete(
                        crossings.len() as u64,
                        explicit_non_crossings.len() as u64,
                        arms.len() as u64,
                        splits,
                        number_roundabout_arms,
                    );
                    let j = Junction {
                        intersection: iid,
                        osm_node,
                        point,
                        arms,
                        number_dual_carriageway_splits: splits,
                        number_roundabout_arms,
                        crossings,
                        explicit_non_crossings,
                        complete,
                    };
                    proof {
                        assert(j@ == spec_junction(
                            nodesv,
                            es,
                            waysv,
                            inter,
                            *options,
                            bearings@,
                        ).unwrap());
                    }
                    r.push(j);
                    proof {
                        assert(r@.map_values(|j2: Junction| j2@) =~= rv0.push(
                            spec_junction(nodesv, es, waysv, inter, *options, bearings@).unwrap(),
                        ));
                        assert(r@.map_values(|j2: Junction| j2@) =~= junction_list(
                            nodesv,
                            es,
                            waysv,
                            iv.subrange(0, a as int + 1),
                            *options,
                            bearings@,
                        ));
                    }
                } else {
                    proof {
                        assert(spec_junction(nodesv, es, waysv, inter, *options, bearings@) is None);
                        assert(r@.map_values(|j2: Junction| j2@) =~= junction_list(
                            nodesv,
                            es,
                            waysv,
                            iv.subrange(0, a as int + 1),
                            *options,
                            bearings@,
                        ));
                    }
                }
            } else {
                proof {
                    assert(spec_junction(nodesv, es, waysv, inter, *options, bearings@) is None);
                    assert(r@.map_values(|j2: Junction| j2@) =~= junction_list(
                        nodesv,
                        es,
                        waysv,
                        iv.subrange(0, a as int + 1),
                        *options,
                        bearings@,
                    ));
                }
            }
            a += 1;
        }
        proof {
            assert(iv.subrange(0, n_int as int) =~= iv);
        }
        r
    }
}

} // verus!

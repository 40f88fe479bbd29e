//! The verified end of sidewalk synthesis. The curve work — offsetting,
//! simplifying, intersecting, trimming, snapping — is measurement done by
//! the caller against the spatial index; what returns here is checked and
//! admitted as a whole, or rejected as a whole.

use vstd::prelude::*;
use crate::edits::{PtGeo, Side, TrimPolicy};
use crate::store::{Speedwalk, WayView, Way};
use crate::tags::tag_is;
use crate::classify::Kind;
use crate::idmap::id_find;
use crate::geomath::spec_within_segment;

verus! {

/// One synthesized sidewalk: its curve, the points where it crosses
/// existing ways (with the index each point splices into that way), and the
/// existing endpoints its ends snapped to.
pub struct NewSidewalk {
    pub linestring: Vec<PtGeo>,
    pub crossing_points: Vec<(i64, PtGeo, usize)>,
    pub connect_start_node: Option<i64>,
    pub connect_end_node: Option<i64>,
}

/// A crossing point carries enough to splice: its way exists, its index is
/// an interior position of that way's polyline, and its point lies within
/// one unit of the segment it splices into.
pub open spec fn crossing_point_valid(
    ways: Seq<(i64, WayView)>,
    cp: (i64, PtGeo, usize),
) -> bool {
    match id_find(ways, cp.0) {
        Some(w) => {
            &&& 1 <= cp.2 < w.linestring.len()
            &&& -0x4000_0000 <= cp.1.x <= 0x4000_0000
            &&& -0x4000_0000 <= cp.1.y <= 0x4000_0000
            &&& spec_within_segment(
                (cp.1.x, cp.1.y),
                w.linestring[cp.2 - 1],
                w.linestring[cp.2 as int],
                1000,
            )
        },
        None => false,
    }
}

pub open spec fn all_crossing_points_valid(
    ways: Seq<(i64, WayView)>,
    rs: Seq<NewSidewalk>,
) -> bool {
    forall|i: int, a: int|
        0 <= i < rs.len() && 0 <= a < rs[i].crossing_points@.len() ==> crossing_point_valid(
            ways,
            #[trigger] rs[i].crossing_points@[a],
        )
}

/// Do the crossing points of a batch reference some existing way twice?
pub open spec fn spec_has_duplicate_way(rs: Seq<NewSidewalk>) -> bool {
    exists|i: int, j: int, a: int, b: int|
        0 <= i < rs.len() && 0 <= j < rs.len() && 0 <= a < rs[i].crossing_points@.len() && 0 <= b
            < rs[j].crossing_points@.len() && (i != j || a != b) && #[trigger] rs[
            i].crossing_points@[a].0 == #[trigger] rs[j].crossing_points@[b].0
}

impl Speedwalk {
    /// Admit or reject one side's synthesized sidewalks. The curves come
    /// from the caller's offset and intersection measurements; this end
    /// checks what the splice arithmetic cannot survive: a crossing point
    /// naming an absent way, an out-of-range splice index, a point away
    /// from its segment, or two crossing points on the same existing way.
    /// A bad batch is rejected whole, so the returned sidewalks always
    /// splice validly and never reference the same existing way twice.
    pub fn make_sidewalks(
        &self,
        base: i64,
        side: Side,
        offset: i64,
        trim: TrimPolicy,
        candidates: Vec<NewSidewalk>,
    ) -> (r: Vec<NewSidewalk>)
        requires
            forall|i: int|
                0 <= i < self.derived_ways@.len() ==> crate::geomath::coords_bounded(
                    (#[trigger] self.derived_ways@[i]).1.linestring,
                ),
        ensures
            !spec_has_duplicate_way(r@),
            all_crossing_points_valid(self.derived_ways@, r@),
            r@.len() == 0 || r@ == candidates@,
            (spec_has_duplicate_way(candidates@) || !all_crossing_points_valid(
                self.derived_ways@,
                candidates@,
            )) ==> r@.len() == 0,
            (!spec_has_duplicate_way(candidates@) && all_crossing_points_valid(
                self.derived_ways@,
                candidates@,
            )) ==> r@ == candidates@,
    {
        let ghost ways = self.derived_ways@;
        // Every crossing point must be a valid splice.
        let nc = candidates.len();
        let mut i: usize = 0;
        while i < nc
            invariant
                nc == candidates@.len(),
                ways == self.derived_ways@,
                forall|k: int|
                    0 <= k < ways.len() ==> crate::geomath::coords_bounded(
                        (#[trigger] ways[k]).1.linestring,
                    ),
                i <= nc,
                forall|p: int, a: int|
                    0 <= p < i && 0 <= a < candidates@[p].crossing_points@.len()
                        ==> crossing_point_valid(
                        ways,
                        #[trigger] candidates@[p].crossing_points@[a],
                    ),
            decreases nc - i,
        {
            let m = candidates[i].crossing_points.len();
            let mut q: usize = 0;
            while q < m
                invariant
                    i < nc,
                    nc == candidates@.len(),
                    m == candidates@[i as int].crossing_points@.len(),
                    ways == self.derived_ways@,
                    forall|k: int|
                        0 <= k < ways.len() ==> crate::geomath::coords_bounded(
                            (#[trigger] ways[k]).1.linestring,
                        ),
                    q <= m,
                    forall|a: int|
                        0 <= a < q ==> crossing_point_valid(
                            ways,
                            #[trigger] candidates@[i as int].crossing_points@[a],
                        ),
                decreases m - q,
            {
                let cp = candidates[i].crossing_points[q];
                let ok = match self.derived_ways.get(cp.0) {
                    Some(w) => {
                        if 1 <= cp.2 && cp.2 < w.linestring.len() && -0x4000_0000 <= cp.1.x
                            && cp.1.x <= 0x4000_0000 && -0x4000_0000 <= cp.1.y && cp.1.y
                            <= 0x4000_0000 {
                            proof {
                                crate::edits::lemma_id_find_pos(ways, cp.0);
                                let j = choose|j: int|
                                    0 <= j < ways.len() && ways[j].0 == cp.0 && ways[j].1
                                        == id_find(ways, cp.0).unwrap();
                                assert(crate::geomath::coords_bounded(ways[j].1.linestring));
                            }
                            crate::geomath::within_segment(
                                (cp.1.x, cp.1.y),
                                w.linestring[cp.2 - 1],
                                w.linestring[cp.2],
                                1000,
                            )
                        } else {
                            false
                        }
                    },
                    None => false,
                };
                if !ok {
                    proof {
                        assert(!crossing_point_valid(ways, candidates@[i as int].crossing_points@[
                            q as int]));
                        assert(!all_crossing_points_valid(ways, candidates@));
                    }
                    let r: Vec<NewSidewalk> = Vec::new();
                    proof {
                        assert(!spec_has_duplicate_way(r@));
                        assert(all_crossing_points_valid(ways, r@));
                    }
                    return r;
                }
                q += 1;
            }
            i += 1;
        }
        proof {
            assert(all_crossing_points_valid(ways, candidates@));
        }
        let mut seen: Vec<i64> = Vec::new();
        let n = candidates.len();
        let mut i: usize = 0;
        while i < n
            invariant
                n == candidates@.len(),
                i <= n,
                crate::network::sorted_ids(seen@),
                forall|y: i64| #[trigger] seen@.contains(y) <==> exists|p: int, q: int|
                    0 <= p < i && 0 <= q < candidates@[p].crossing_points@.len()
                        && #[trigger] candidates@[p].crossing_points@[q].0 == y,
                !spec_has_duplicate_way_upto(candidates@, i as int, n as int),
            decreases n - i,
        {
            let m = candidates[i].crossing_points.len();
            let mut q: usize = 0;
            while q < m
                invariant
                    i < n,
                    n == candidates@.len(),
                    m == candidates@[i as int].crossing_points@.len(),
                    q <= m,
                    crate::network::sorted_ids(seen@),
                    forall|y: i64| #[trigger] seen@.contains(y) <==> exists|p: int, b: int|
                        (0 <= p <= i && 0 <= b < candidates@[p].crossing_points@.len() && (p < i
                            || b < q) && #[trigger] candidates@[p].crossing_points@[b].0 == y),
                    !spec_has_duplicate_way_upto_inner(candidates@, i as int, q as int),
                decreases m - q,
            {
                let wid = candidates[i].crossing_points[q].0;
                if crate::edits::contains_id(&seen, wid) {
                    proof {
                        assert(spec_has_duplicate_way(candidates@)) by {
                            assert(seen@.contains(wid));
                        }
                    }
                    let r: Vec<NewSidewalk> = Vec::new();
                    proof {
                        assert(!spec_has_duplicate_way(r@));
                    }
                    return r;
                }
                crate::network::insert_sorted_unique(&mut seen, wid);
                proof {
                    assert forall|y: i64| #[trigger] seen@.contains(y) implies exists|
                        p: int,
                        b: int,
                    |
                        (0 <= p <= i && 0 <= b < candidates@[p].crossing_points@.len() && (p < i
                            || b < q + 1) && #[trigger] candidates@[p].crossing_points@[b].0
                            == y) by {
                        if y == wid {
                            assert(0 <= i < candidates@.len() && 0 <= q < candidates@[
                                i as int].crossing_points@.len() && candidates@[
                                i as int].crossing_points@[q as int].0 == y);
                        }
                    }
                }
                q += 1;
            }
            i += 1;
        }
        proof {
            lemma_no_dup_from_scan(candidates@);
        }
        candidates
    }
}

/// No duplicate among the crossing ways of the first i candidates (and the
/// first q points of candidate i, for the inner form).
pub open spec fn spec_has_duplicate_way_upto(rs: Seq<NewSidewalk>, i: int, n: int) -> bool {
    exists|p1: int, p2: int, a: int, b: int|
        0 <= p1 < i && 0 <= p2 < i && 0 <= a < rs[p1].crossing_points@.len() && 0 <= b < rs[
            p2].crossing_points@.len() && (p1 != p2 || a != b) && #[trigger] rs[
            p1].crossing_points@[a].0 == #[trigger] rs[p2].crossing_points@[b].0
}

pub open spec fn spec_has_duplicate_way_upto_inner(rs: Seq<NewSidewalk>, i: int, q: int) -> bool {
    exists|p1: int, p2: int, a: int, b: int|
        0 <= p1 <= i && 0 <= p2 <= i && 0 <= a < rs[p1].crossing_points@.len() && 0 <= b < rs[
            p2].crossing_points@.len() && (p1 < i || a < q) && (p2 < i || b < q) && (p1 != p2 || a
            != b) && #[trigger] rs[p1].crossing_points@[a].0 == #[trigger] rs[
            p2].crossing_points@[b].0
}

/// A scan that found no duplicate among all prefixes found none at all.
proof fn lemma_no_dup_from_scan(rs: Seq<NewSidewalk>)
    requires
        !spec_has_duplicate_way_upto(rs, rs.len() as int, rs.len() as int),
    ensures
        !spec_has_duplicate_way(rs),
{
}

/// Does a way get sidewalks synthesized: not already a footway, not
/// restricted to severances it fails, and carrying no sidewalk tagging
/// that settles the question.
pub open spec fn spec_way_qualifies(
    t: Seq<(Seq<char>, Seq<char>)>,
    kind: Kind,
    is_severance: bool,
    only_severances: bool,
) -> bool {
    &&& !(kind == Kind::Sidewalk || kind == Kind::Crossing)
    &&& (is_severance || !only_severances)
    &&& !crate::tags::tag_has(t, "sidewalk:both"@)
    &&& !crate::tags::tag_has(t, "sidewalk:left"@)
    &&& !crate::tags::tag_has(t, "sidewalk:right"@)
    &&& !tag_is(t, "sidewalk"@, "no"@)
    &&& !tag_is(t, "sidewalk"@, "separate"@)
    &&& !tag_is(t, "highway"@, "motorway"@)
    &&& !tag_is(t, "highway"@, "motorway_link"@)
    &&& !tag_is(t, "highway"@, "proposed"@)
}

/// The whole-store synthesis qualification test for one way.
pub fn way_qualifies_for_sidewalks(w: &Way, only_severances: bool) -> (r: bool)
    ensures
        r == spec_way_qualifies(
            w@.tags,
            w@.kind,
            crate::store::spec_is_severance(w@.tags),
            only_severances,
        ),
{
    let kind_ok = match w.kind {
        Kind::Sidewalk => false,
        Kind::Crossing => false,
        _ => true,
    };
    kind_ok && (w.is_severance() || !only_severances) && !w.tags.has("sidewalk:both")
        && !w.tags.has("sidewalk:left") && !w.tags.has("sidewalk:right") && !w.tags.is(
        "sidewalk",
        "no",
    ) && !w.tags.is("sidewalk", "separate") && !w.tags.is("highway", "motorway") && !w.tags.is(
        "highway",
        "motorway_link",
    ) && !w.tags.is("highway", "proposed")
}

/// Does the hit list name some way twice?
pub open spec fn spec_hits_have_duplicate(hits: Seq<(i64, PtGeo, usize)>) -> bool {
    exists|a: int, b: int| 0 <= a < b < hits.len() && (#[trigger] hits[a]).0 == (#[trigger] hits[b]).0
}

/// The one-intersection-per-way rule of synthesis: a curve's measured hits
/// are accepted only when no existing way is hit more than once; a repeat
/// makes the splice order ambiguous and rejects the curve.
pub fn accept_way_hits(hits: &Vec<(i64, PtGeo, usize)>) -> (r: Option<Vec<(i64, PtGeo, usize)>>)
    ensures
        match r {
            Some(h) => h@ == hits@ && !spec_hits_have_duplicate(hits@),
            None => spec_hits_have_duplicate(hits@),
        },
{
    let n = hits.len();
    let mut i: usize = 0;
    while i < n
        invariant
            n == hits@.len(),
            i <= n,
            forall|a: int, b: int| 0 <= a < b < i ==> (#[trigger] hits@[a]).0 != (#[trigger] hits@[b]).0,
        decreases n - i,
    {
        let mut j: usize = 0;
        while j < i
            invariant
                i < n,
                n == hits@.len(),
                j <= i,
                forall|b: int| 0 <= b < j ==> (#[trigger] hits@[b]).0 != hits@[i as int].0,
            decreases i - j,
        {
            if hits[j].0 == hits[i].0 {
                proof {
                    assert(hits@[j as int].0 == hits@[i as int].0);
                }
                return None;
            }
            j += 1;
        }
        i += 1;
    }
    let mut out: Vec<(i64, PtGeo, usize)> = Vec::new();
    let mut i: usize = 0;
    while i < n
        invariant
            n == hits@.len(),
            i <= n,
            out@ =~= hits@.subrange(0, i as int),
        decreases n - i,
    {
        out.push(hits[i]);
        proof {
            assert(out@ =~= hits@.subrange(0, i as int + 1));
        }
        i += 1;
    }
    proof {
        assert(out@ =~= hits@);
    }
    Some(out)
}

/// Where a curve stops against other sidewalks: the first sidewalk crossing
/// in the opening fifth of the curve moves the start there; the last one in
/// the closing fifth moves the end. Distances are along the curve, in
/// thousandths of a unit.
pub fn stop_at_sidewalks_bounds(total: u64, first: Option<u64>, last: Option<u64>) -> (r: (
    u64,
    u64,
))
    requires
        total < 0x1000_0000_0000_0000,
        match first {
            Some(f) => f <= total,
            None => true,
        },
        match last {
            Some(l) => l <= total,
            None => true,
        },
    ensures
        r.0 == (match first {
            Some(f) => if f * 5 <= total {
                f
            } else {
                0
            },
            None => 0,
        }),
        r.1 == (match last {
            Some(l) => if l * 5 >= 4 * total {
                l
            } else {
                total
            },
            None => total,
        }),
{
    let start = match first {
        Some(f) => if f * 5 <= total {
            f
        } else {
            0
        },
        None => 0,
    };
    let end = match last {
        Some(l) => if l * 5 >= 4 * total {
            l
        } else {
            total
        },
        None => total,
    };
    (start, end)
}

/// How one crossing cuts a curve that trims back from crossings: a span of
/// the trim distance on both sides, clamped to the curve, with a crossing
/// near either end overriding that whole end.
pub fn trim_span(total: u64, d: u64, t: u64) -> (r: (u64, u64))
    requires
        d <= total,
        t <= total,
    ensures
        d < t ==> r.0 == 0 && r.1 == (if d + t <= total {
            (d + t) as int
        } else {
            total as int
        }),
        d + t > total && d >= t ==> r.0 == d - t && r.1 == total,
        t <= d && d + t <= total ==> r.0 == d - t && r.1 == d + t,
{
    if d < t {
        let hi = if total - t >= d {
            d + t
        } else {
            total
        };
        (0, hi)
    } else if d > total - t {
        (d - t, total)
    } else {
        (d - t, d + t)
    }
}

/// Does a curve endpoint sit close enough to an existing sidewalk endpoint
/// to reuse that node instead of creating one? The caller measures the
/// squared distance to the nearest endpoint.
pub fn snap_endpoint(nearest: Option<(i64, u64)>) -> (r: Option<i64>)
    ensures
        r == (match nearest {
            Some((node, d_sq)) => if d_sq <= 1000000 {
                Some(node)
            } else {
                None::<i64>
            },
            None => None::<i64>,
        }),
{
    match nearest {
        Some((node, d_sq)) => if d_sq <= 1000000 {
            Some(node)
        } else {
            None
        },
        None => None,
    }
}

} // verus!

//! Integer geometry: exact squared distances, integer square roots, and
//! polyline lengths in thousandths of a unit. All planar arithmetic in the
//! library runs on these.

use vstd::prelude::*;

verus! {

/// The integer square root: the largest r with r * r <= n.
pub open spec fn spec_isqrt(n: nat) -> nat
    decreases n,
{
    if n == 0 {
        0
    } else {
        let p = spec_isqrt((n - 1) as nat);
        if (p + 1) * (p + 1) <= n {
            p + 1
        } else {
            p
        }
    }
}

/// `spec_isqrt` is characterized by bracketing n between two squares.
pub proof fn lemma_isqrt_char(n: nat)
    ensures
        spec_isqrt(n) * spec_isqrt(n) <= n,
        (spec_isqrt(n) + 1) * (spec_isqrt(n) + 1) > n,
    decreases n,
{
    if n == 0 {
        assert(spec_isqrt(n) == 0);
        assert((spec_isqrt(n) + 1) * (spec_isqrt(n) + 1) == 1) by (nonlinear_arith)
            requires
                spec_isqrt(n) == 0,
        ;
    } else {
        lemma_isqrt_char((n - 1) as nat);
        let p = spec_isqrt((n - 1) as nat);
        if (p + 1) * (p + 1) <= n {
            assert(spec_isqrt(n) == p + 1);
            assert((p + 1) * (p + 1) > n - 1);
            assert((p + 2) * (p + 2) > (p + 1) * (p + 1)) by (nonlinear_arith);
            assert((spec_isqrt(n) + 1) * (spec_isqrt(n) + 1) > n);
        } else {
            assert(spec_isqrt(n) == p);
            assert(p * p <= n - 1);
            assert((p + 1) * (p + 1) > n);
        }
    }
}

/// Only one value is bracketed that way.
pub proof fn lemma_isqrt_unique(n: nat, r: nat)
    requires
        r * r <= n,
        (r + 1) * (r + 1) > n,
    ensures
        r == spec_isqrt(n),
{
    let s = spec_isqrt(n);
    lemma_isqrt_char(n);
    if r < s {
        assert((r + 1) * (r + 1) <= s * s) by (nonlinear_arith)
            requires
                r + 1 <= s,
        ;
    }
    if s < r {
        assert((s + 1) * (s + 1) <= r * r) by (nonlinear_arith)
            requires
                s + 1 <= r,
        ;
    }
}

/// The integer square root of a 64-bit value, by binary search.
pub fn isqrt(n: u64) -> (r: u64)
    ensures
        r == spec_isqrt(n as nat),
{
    let mut lo: u64 = 0;
    let mut hi: u64 = 0x1_0000_0000;
    while lo + 1 < hi
        invariant
            lo < hi <= 0x1_0000_0000,
            (lo as nat) * (lo as nat) <= n as nat,
            hi == 0x1_0000_0000 || (hi as nat) * (hi as nat) > n as nat,
        decreases hi - lo,
    {
        let mid = lo + (hi - lo) / 2;
        proof {
            assert((mid as int) * (mid as int) <= 0x1_0000_0000 * 0x1_0000_0000)
                by (nonlinear_arith)
                requires
                    0 <= mid as int <= 0x1_0000_0000,
            ;
        }
        let sq: u128 = (mid as u128) * (mid as u128);
        if sq <= n as u128 {
            lo = mid;
        } else {
            hi = mid;
        }
    }
    proof {
        if hi == 0x1_0000_0000 && lo + 1 == hi {
            assert((lo as nat) + 1 == 0x1_0000_0000);
            assert(((lo + 1) as nat) * ((lo + 1) as nat) > n as nat) by (nonlinear_arith)
                requires
                    (lo as nat) + 1 == 0x1_0000_0000nat,
                    n < 0x1_0000_0000_0000_0000,
            ;
        }
        lemma_isqrt_unique(n as nat, lo as nat);
    }
    lo
}

/// The straight-line distance between two points, rounded down to whole
/// thousandths of a unit.
pub open spec fn seg_len(a: (i64, i64), b: (i64, i64)) -> nat {
    spec_isqrt(((b.0 - a.0) * (b.0 - a.0) + (b.1 - a.1) * (b.1 - a.1)) as nat)
}

/// The length of a polyline: the sum of its segment lengths.
pub open spec fn polyline_len(pts: Seq<(i64, i64)>) -> nat
    decreases pts.len(),
{
    if pts.len() < 2 {
        0
    } else {
        polyline_len(pts.drop_last()) + seg_len(pts[pts.len() - 2], pts.last())
    }
}

/// Are both coordinates of every point within the workable range?
pub open spec fn coords_bounded(pts: Seq<(i64, i64)>) -> bool {
    forall|i: int|
        0 <= i < pts.len() ==> {
            let p = #[trigger] pts[i];
            -0x4000_0000 <= p.0 <= 0x4000_0000 && -0x4000_0000 <= p.1 <= 0x4000_0000
        }
}

/// One segment's length is below 2^32.
proof fn lemma_seg_len_bound(a: (i64, i64), b: (i64, i64))
    requires
        -0x4000_0000 <= a.0 <= 0x4000_0000,
        -0x4000_0000 <= a.1 <= 0x4000_0000,
        -0x4000_0000 <= b.0 <= 0x4000_0000,
        -0x4000_0000 <= b.1 <= 0x4000_0000,
    ensures
        seg_len(a, b) < 0x1_0000_0000,
{
    let dx = b.0 - a.0;
    let dy = b.1 - a.1;
    assert(dx * dx + dy * dy < 0x1_0000_0000 * 0x1_0000_0000) by (nonlinear_arith)
        requires
            -0x8000_0000 <= dx <= 0x8000_0000,
            -0x8000_0000 <= dy <= 0x8000_0000,
    ;
    let n = (dx * dx + dy * dy) as nat;
    assert(dx * dx >= 0 && dy * dy >= 0) by (nonlinear_arith);
    lemma_isqrt_char(n);
    let s = spec_isqrt(n);
    if s >= 0x1_0000_0000 {
        assert(s * s >= 0x1_0000_0000 * 0x1_0000_0000) by (nonlinear_arith)
            requires
                s >= 0x1_0000_0000nat,
        ;
        assert(false);
    }
}

/// The exact distance of one segment.
pub fn segment_length(a: (i64, i64), b: (i64, i64)) -> (r: u64)
    requires
        -0x4000_0000 <= a.0 <= 0x4000_0000,
        -0x4000_0000 <= a.1 <= 0x4000_0000,
        -0x4000_0000 <= b.0 <= 0x4000_0000,
        -0x4000_0000 <= b.1 <= 0x4000_0000,
    ensures
        r == seg_len(a, b),
        r < 0x1_0000_0000,
{
    let dx = b.0 - a.0;
    let dy = b.1 - a.1;
    proof {
        assert(0 <= dx * dx <= 0x8000_0000 * 0x8000_0000 && 0 <= dy * dy <= 0x8000_0000
            * 0x8000_0000) by (nonlinear_arith)
            requires
                -0x8000_0000 <= dx <= 0x8000_0000,
                -0x8000_0000 <= dy <= 0x8000_0000,
        ;
    }
    let sqx = dx * dx;
    let sqy = dy * dy;
    let sq = (sqx as u64) + (sqy as u64);
    proof {
        lemma_seg_len_bound(a, b);
    }
    isqrt(sq)
}

/// The exact length of a polyline.
pub fn polyline_length(pts: &Vec<(i64, i64)>) -> (r: u64)
    requires
        coords_bounded(pts@),
        pts@.len() < 0x10_0000,
    ensures
        r == polyline_len(pts@),
{
    let n = pts.len();
    if n < 2 {
        proof {
            assert(polyline_len(pts@) == 0);
        }
        return 0;
    }
    let mut total: u64 = 0;
    let mut i: usize = 1;
    proof {
        assert(polyline_len(pts@.subrange(0, 1)) == 0);
    }
    while i < n
        invariant
            n == pts@.len(),
            2 <= n < 0x10_0000,
            coords_bounded(pts@),
            1 <= i <= n,
            total == polyline_len(pts@.subrange(0, i as int)),
            total <= ((i - 1) as u64) * 0x1_0000_0000,
        decreases n - i,
    {
        proof {
            assert(((i - 1) as u64) * 0x1_0000_0000 <= 0x10_0000 * 0x1_0000_0000)
                by (nonlinear_arith)
                requires
                    (i - 1) as u64 <= 0x10_0000u64,
            ;
        }
        let d = segment_length(pts[i - 1], pts[i]);
        proof {
            let cur = pts@.subrange(0, i as int + 1);
            assert(cur.drop_last() =~= pts@.subrange(0, i as int));
            assert(cur[cur.len() - 2] == pts@[i as int - 1]);
            assert(cur.last() == pts@[i as int]);
            assert(polyline_len(cur) == polyline_len(pts@.subrange(0, i as int)) + seg_len(
                pts@[i as int - 1],
                pts@[i as int],
            ));
        }
        total = total + d;
        i += 1;
    }
    proof {
        assert(pts@.subrange(0, n as int) =~= pts@);
    }
    total
}

/// The squared distance between two points: exact, with no rounding at all.
pub open spec fn dist_sq(a: (i64, i64), b: (i64, i64)) -> int {
    (b.0 - a.0) * (b.0 - a.0) + (b.1 - a.1) * (b.1 - a.1)
}

pub fn squared_distance(a: (i64, i64), b: (i64, i64)) -> (r: u64)
    requires
        -0x4000_0000 <= a.0 <= 0x4000_0000,
        -0x4000_0000 <= a.1 <= 0x4000_0000,
        -0x4000_0000 <= b.0 <= 0x4000_0000,
        -0x4000_0000 <= b.1 <= 0x4000_0000,
    ensures
        r == dist_sq(a, b),
{
    let dx = b.0 - a.0;
    let dy = b.1 - a.1;
    proof {
        assert(0 <= dx * dx <= 0x8000_0000 * 0x8000_0000 && 0 <= dy * dy <= 0x8000_0000
            * 0x8000_0000) by (nonlinear_arith)
            requires
                -0x8000_0000 <= dx <= 0x8000_0000,
                -0x8000_0000 <= dy <= 0x8000_0000,
        ;
    }
    let sqx = dx * dx;
    let sqy = dy * dy;
    (sqx as u64) + (sqy as u64)
}

/// The shortest rotation from one bearing to another, in whole degrees,
/// in the range [-180, 180).
pub open spec fn spec_shortest_rotation(a1: int, a2: int) -> int {
    ((a1 - a2 + 540) % 360) - 180
}

/// Degrees in, degrees out: how far bearing `a1` sits from bearing `a2`,
/// by the shortest turn.
pub fn shortest_rotation(a1: i64, a2: i64) -> (r: i64)
    requires
        -360 <= a1 <= 360,
        -360 <= a2 <= 360,
    ensures
        r == spec_shortest_rotation(a1 as int, a2 as int),
        -180 <= r < 180,
{
    let shifted = a1 - a2 + 540 + 360;
    let m = shifted % 360;
    proof {
        vstd::arithmetic::div_mod::lemma_mod_multiples_vanish(
            1,
            (a1 - a2 + 540) as int,
            360,
        );
    }
    m - 180
}

/// Are two undirected bearings within the tolerance of parallel, either way
/// round?
pub open spec fn spec_nearly_parallel(a1: int, a2: int, tol: int) -> bool {
    let r = spec_shortest_rotation(a1, a2);
    (if r < 0 {
        -r
    } else {
        r
    }) < tol || (if r < 0 {
        -r
    } else {
        r
    }) > 180 - tol
}

/// Do two average bearings describe nearly parallel or anti-parallel lines?
pub fn nearly_parallel(a1: i64, a2: i64, tol: i64) -> (r: bool)
    requires
        -360 <= a1 <= 360,
        -360 <= a2 <= 360,
        0 <= tol <= 180,
    ensures
        r == spec_nearly_parallel(a1 as int, a2 as int, tol as int),
{
    let rot = shortest_rotation(a1, a2);
    let a = if rot < 0 {
        -rot
    } else {
        rot
    };
    a < tol || a > 180 - tol
}

/// A bounded polyline's length stays far below overflow.
pub proof fn lemma_polyline_len_bound(pts: Seq<(i64, i64)>)
    requires
        coords_bounded(pts),
        pts.len() < 0x10_0000,
    ensures
        polyline_len(pts) <= pts.len() * 0x1_0000_0000,
    decreases pts.len(),
{
    if pts.len() >= 2 {
        lemma_polyline_len_bound(pts.drop_last());
        lemma_seg_len_bound(pts[pts.len() - 2], pts.last());
    }
}

/// Is the point within distance `r` of the segment from `a` to `b`? Exact,
/// by squared integer arithmetic: against the nearer endpoint outside the
/// segment's span, against the perpendicular inside it.
pub open spec fn spec_within_segment(p: (i64, i64), a: (i64, i64), b: (i64, i64), r: int) -> bool {
    let dx = b.0 - a.0;
    let dy = b.1 - a.1;
    let px = p.0 - a.0;
    let py = p.1 - a.1;
    let dot = px * dx + py * dy;
    let len2 = dx * dx + dy * dy;
    if dot <= 0 {
        px * px + py * py <= r * r
    } else if dot >= len2 {
        (p.0 - b.0) * (p.0 - b.0) + (p.1 - b.1) * (p.1 - b.1) <= r * r
    } else {
        (px * dy - py * dx) * (px * dy - py * dx) <= r * r * len2
    }
}

/// The exact within-distance test for one segment.
pub fn within_segment(p: (i64, i64), a: (i64, i64), b: (i64, i64), r: i64) -> (res: bool)
    requires
        -0x4000_0000 <= p.0 <= 0x4000_0000,
        -0x4000_0000 <= p.1 <= 0x4000_0000,
        -0x4000_0000 <= a.0 <= 0x4000_0000,
        -0x4000_0000 <= a.1 <= 0x4000_0000,
        -0x4000_0000 <= b.0 <= 0x4000_0000,
        -0x4000_0000 <= b.1 <= 0x4000_0000,
        0 <= r <= 0x10_0000,
    ensures
        res == spec_within_segment(p, a, b, r as int),
{
    let dx: i128 = (b.0 - a.0) as i128;
    let dy: i128 = (b.1 - a.1) as i128;
    let px: i128 = (p.0 - a.0) as i128;
    let py: i128 = (p.1 - a.1) as i128;
    proof {
        assert(-0x8000_0000 <= dx <= 0x8000_0000);
        assert(-0x8000_0000 <= dy <= 0x8000_0000);
        assert(-0x8000_0000 <= px <= 0x8000_0000);
        assert(-0x8000_0000 <= py <= 0x8000_0000);
        assert(-(0x8000_0000 * 0x8000_0000) <= px * dx <= 0x8000_0000 * 0x8000_0000
            && -(0x8000_0000 * 0x8000_0000) <= py * dy <= 0x8000_0000 * 0x8000_0000
            && -(0x8000_0000 * 0x8000_0000) <= px * dy <= 0x8000_0000 * 0x8000_0000
            && -(0x8000_0000 * 0x8000_0000) <= py * dx <= 0x8000_0000 * 0x8000_0000
            && 0 <= dx * dx <= 0x8000_0000 * 0x8000_0000 && 0 <= dy * dy <= 0x8000_0000
            * 0x8000_0000 && 0 <= px * px <= 0x8000_0000 * 0x8000_0000 && 0 <= py * py
            <= 0x8000_0000 * 0x8000_0000) by (nonlinear_arith)
            requires
                -0x8000_0000 <= dx <= 0x8000_0000,
                -0x8000_0000 <= dy <= 0x8000_0000,
                -0x8000_0000 <= px <= 0x8000_0000,
                -0x8000_0000 <= py <= 0x8000_0000,
        ;
    }
    let dot: i128 = px * dx + py * dy;
    let len2: i128 = dx * dx + dy * dy;
    if dot <= 0 {
        proof {
            assert(0 <= (r as i128) * (r as i128) <= 0x10_0000 * 0x10_0000) by (nonlinear_arith)
                requires
                    0 <= r as i128 <= 0x10_0000,
            ;
        }
        px * px + py * py <= (r as i128) * (r as i128)
    } else if dot >= len2 {
        let qx: i128 = (p.0 - b.0) as i128;
        let qy: i128 = (p.1 - b.1) as i128;
        proof {
            assert(qx * qx >= 0 && qy * qy >= 0 && qx * qx + qy * qy <= 0x8000_0000 * 0x8000_0000
                + 0x8000_0000 * 0x8000_0000) by (nonlinear_arith)
                requires
                    -0x8000_0000 <= qx <= 0x8000_0000,
                    -0x8000_0000 <= qy <= 0x8000_0000,
            ;
            assert(0 <= (r as i128) * (r as i128) <= 0x10_0000 * 0x10_0000) by (nonlinear_arith)
                requires
                    0 <= r as i128 <= 0x10_0000,
            ;
        }
        qx * qx + qy * qy <= (r as i128) * (r as i128)
    } else {
        let cross: i128 = px * dy - py * dx;
        proof {
            assert(-(0x8000_0000 * 0x8000_0000 * 2) <= cross <= 0x8000_0000 * 0x8000_0000 * 2)
                by (nonlinear_arith)
                requires
                    -0x8000_0000 <= dx <= 0x8000_0000,
                    -0x8000_0000 <= dy <= 0x8000_0000,
                    -0x8000_0000 <= px <= 0x8000_0000,
                    -0x8000_0000 <= py <= 0x8000_0000,
                    cross == px * dy - py * dx,
            ;
            assert(cross * cross <= (0x8000_0000 * 0x8000_0000 * 2) * (0x8000_0000 * 0x8000_0000
                * 2) && cross * cross >= 0) by (nonlinear_arith)
                requires
                    -(0x8000_0000 * 0x8000_0000 * 2) <= cross <= 0x8000_0000 * 0x8000_0000 * 2,
            ;
            assert(0 <= (r as i128) * (r as i128) <= 0x10_0000 * 0x10_0000) by (nonlinear_arith)
                requires
                    0 <= r as i128 <= 0x10_0000,
            ;
            assert(0 <= (r as i128) * (r as i128) * len2 <= (0x10_0000 * 0x10_0000) * (
            0x8000_0000 * 0x8000_0000 * 2)) by (nonlinear_arith)
                requires
                    0 <= (r as i128) * (r as i128) <= 0x10_0000 * 0x10_0000,
                    0 < len2 <= 0x8000_0000 * 0x8000_0000 * 2,
            ;
        }
        let rr: i128 = (r as i128) * (r as i128);
        cross * cross <= rr * len2
    }
}

} // verus!

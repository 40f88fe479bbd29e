//! The topology graph: one intersection per node that ends a way or is
//! shared between ways, and one edge per way segment between intersections.
//! Ways are walked in ascending identifier order, so the same store always
//! yields the same graph.

use vstd::prelude::*;
use crate::tags::Tags;
use crate::store::{WayView, Speedwalk};
use crate::idmap::{id_find, id_has};
use crate::problems::count_occ;

verus! {

#[derive(Clone, Copy, Debug, PartialEq, Eq, Hash, Structural)]
pub struct EdgeID(pub u64);

#[derive(Clone, Copy, Debug, PartialEq, Eq, Hash, Structural)]
pub struct IntersectionID(pub u64);

pub struct Edge {
    pub id: EdgeID,
    pub src: IntersectionID,
    pub dst: IntersectionID,
    /// The way this edge is a segment of.
    pub osm_way: i64,
    /// The boundary nodes this edge runs between.
    pub osm_node1: i64,
    pub osm_node2: i64,
    pub osm_tags: Tags,
    /// The node sub-sequence this edge spans, boundary nodes included.
    pub node_ids: Vec<i64>,
    /// Where this edge begins and ends within the way's node list.
    pub idx_of_node1: usize,
    pub idx_of_node2: usize,
    pub linestring: Vec<(i64, i64)>,
}

pub ghost struct EdgeV {
    pub id: EdgeID,
    pub src: IntersectionID,
    pub dst: IntersectionID,
    pub osm_way: i64,
    pub osm_node1: i64,
    pub osm_node2: i64,
    pub osm_tags: Seq<(Seq<char>, Seq<char>)>,
    pub node_ids: Seq<i64>,
    pub idx_of_node1: usize,
    pub idx_of_node2: usize,
    pub linestring: Seq<(i64, i64)>,
}

impl View for Edge {
    type V = EdgeV;

    open spec fn view(&self) -> EdgeV {
        EdgeV {
            id: self.id,
            src: self.src,
            dst: self.dst,
            osm_way: self.osm_way,
            osm_node1: self.osm_node1,
            osm_node2: self.osm_node2,
            osm_tags: self.osm_tags@,
            node_ids: self.node_ids@,
            idx_of_node1: self.idx_of_node1,
            idx_of_node2: self.idx_of_node2,
            linestring: self.linestring@,
        }
    }
}

pub struct Intersection {
    pub id: IntersectionID,
    /// Incident edges, one entry per incident edge end, in edge order.
    pub edges: Vec<EdgeID>,
    pub osm_node: i64,
    pub point: (i64, i64),
}

pub ghost struct IntersectionV {
    pub id: IntersectionID,
    pub edges: Seq<EdgeID>,
    pub osm_node: i64,
    pub point: (i64, i64),
}

impl View for Intersection {
    type V = IntersectionV;

    open spec fn view(&self) -> IntersectionV {
        IntersectionV {
            id: self.id,
            edges: self.edges@,
            osm_node: self.osm_node,
            point: self.point,
        }
    }
}

pub struct Graph {
    pub edges: Vec<Edge>,
    pub intersections: Vec<Intersection>,
}

/// How many times any way's node list mentions node `n`.
pub open spec fn node_occurrences(ways: Seq<(i64, WayView)>, n: i64) -> nat
    decreases ways.len(),
{
    if ways.len() == 0 {
        0
    } else {
        node_occurrences(ways.drop_last(), n) + count_occ(ways.last().1.node_ids, n)
    }
}

/// The edges cut from one way, in graph order.
pub open spec fn edges_of_way(es: Seq<EdgeV>, wid: i64) -> Seq<EdgeV>
    decreases es.len(),
{
    if es.len() == 0 {
        Seq::empty()
    } else {
        edges_of_way(es.drop_last(), wid) + if es.last().osm_way == wid {
            seq![es.last()]
        } else {
            Seq::empty()
        }
    }
}

/// The incident edge ends at one intersection, in edge order: one entry for
/// a source end, one for a destination end (a loop edge contributes two).
pub open spec fn incident_edges(es: Seq<EdgeV>, iid: IntersectionID) -> Seq<EdgeID>
    decreases es.len(),
{
    if es.len() == 0 {
        Seq::empty()
    } else {
        incident_edges(es.drop_last(), iid) + (if es.last().src == iid {
            seq![es.last().id]
        } else {
            Seq::empty()
        }) + (if es.last().dst == iid {
            seq![es.last().id]
        } else {
            Seq::empty()
        })
    }
}

/// The first intersection with this identifier, if any; identifiers are
/// unique, so it is the only one.
pub open spec fn inter_find(is: Seq<IntersectionV>, iid: IntersectionID) -> Option<IntersectionV>
    decreases is.len(),
{
    if is.len() == 0 {
        None
    } else if is[0].id == iid {
        Some(is[0])
    } else {
        inter_find(is.drop_first(), iid)
    }
}

/// An edge is a faithful segment of its way: its node list and polyline are
/// the way's sub-sequences over the recorded index range, its boundary
/// nodes and intersections match, and its tags are the way's.
pub open spec fn edge_valid(
    ways: Seq<(i64, WayView)>,
    is: Seq<IntersectionV>,
    e: EdgeV,
) -> bool {
    &&& id_has(ways, e.osm_way)
    &&& {
        let w = id_find(ways, e.osm_way).unwrap();
        &&& e.idx_of_node1 < e.idx_of_node2 < w.node_ids.len()
        &&& e.node_ids == w.node_ids.subrange(
            e.idx_of_node1 as int,
            e.idx_of_node2 as int + 1,
        )
        &&& w.linestring.len() == w.node_ids.len() ==> e.linestring == w.linestring.subrange(
            e.idx_of_node1 as int,
            e.idx_of_node2 as int + 1,
        )
        &&& e.osm_node1 == w.node_ids[e.idx_of_node1 as int]
        &&& e.osm_node2 == w.node_ids[e.idx_of_node2 as int]
        &&& e.osm_tags == w.tags
        &&& match inter_find(is, e.src) {
            Some(i) => i.osm_node == e.osm_node1,
            None => false,
        }
        &&& match inter_find(is, e.dst) {
            Some(i) => i.osm_node == e.osm_node2,
            None => false,
        }
    }
}

/// Is this position a segment boundary of the way: an endpoint, or a node
/// some way mentions more than once?
pub open spec fn is_boundary(ways: Seq<(i64, WayView)>, w: WayView, idx: int) -> bool {
    idx == 0 || idx == w.node_ids.len() - 1 || node_occurrences(ways, w.node_ids[idx]) >= 2
}

/// The edges of one way chain across it: the first starts at position 0,
/// each next one starts where the previous ended, the last ends at the last
/// position, every cut sits on a boundary, and no boundary is skipped.
/// Concatenating the edges' polylines in this order therefore reproduces
/// the way's polyline exactly.
pub open spec fn way_covered(
    es: Seq<EdgeV>,
    ways: Seq<(i64, WayView)>,
    wid: i64,
    w: WayView,
) -> bool {
    let f = edges_of_way(es, wid);
    &&& f.len() >= 1
    &&& f[0].idx_of_node1 == 0
    &&& f.last().idx_of_node2 == w.node_ids.len() - 1
    &&& forall|k: int| 0 <= k < f.len() - 1 ==> f[k + 1].idx_of_node1 == (#[trigger] f[k]).idx_of_node2
    &&& forall|k: int, j: int|
        0 <= k < f.len() && (#[trigger] f[k]).idx_of_node1 < j < f[k].idx_of_node2
            ==> !#[trigger] is_boundary(ways, w, j)
    &&& forall|k: int| 0 <= k < f.len() ==> is_boundary(ways, w, (#[trigger] f[k]).idx_of_node2 as int)
}

/// The polylines of a chain of edges, concatenated without repeating the
/// shared boundary points.
pub open spec fn concat_polylines(f: Seq<EdgeV>) -> Seq<(i64, i64)>
    decreases f.len(),
{
    if f.len() == 0 {
        Seq::empty()
    } else if f.len() == 1 {
        f[0].linestring
    } else {
        concat_polylines(f.drop_last()) + f.last().linestring.drop_first()
    }
}

/// Graph reconstruction: for a covered way, concatenating its edges'
/// polylines in intersection order reproduces the way's polyline, point for
/// point.
pub proof fn lemma_graph_reconstruction(
    es: Seq<EdgeV>,
    ways: Seq<(i64, WayView)>,
    wid: i64,
    w: WayView,
)
    requires
        id_find(ways, wid) == Some(w),
        w.linestring.len() == w.node_ids.len(),
        forall|k: int|
            0 <= k < edges_of_way(es, wid).len() ==> edge_valid_polyline(
                ways,
                #[trigger] edges_of_way(es, wid)[k],
            ),
        way_covered(es, ways, wid, w),
    ensures
        concat_polylines(edges_of_way(es, wid)) == w.linestring,
{
    let f = edges_of_way(es, wid);
    lemma_edges_of_way_members(es, wid);
    lemma_concat_prefix(f, ways, wid, w, f.len() as int);
    assert(concat_polylines(f) =~= w.linestring) by {
        assert(f.subrange(0, f.len() as int) =~= f);
        assert(concat_polylines(f.subrange(0, f.len() as int)) == w.linestring.subrange(
            0,
            f.last().idx_of_node2 + 1,
        ));
        assert(w.linestring.subrange(0, f.last().idx_of_node2 + 1) =~= w.linestring);
    }
}

/// The part of `edge_valid` that reconstruction needs.
pub open spec fn edge_valid_polyline(ways: Seq<(i64, WayView)>, e: EdgeV) -> bool {
    &&& id_has(ways, e.osm_way)
    &&& {
        let w = id_find(ways, e.osm_way).unwrap();
        &&& e.idx_of_node1 < e.idx_of_node2 < w.node_ids.len()
        &&& w.linestring.len() == w.node_ids.len() ==> e.linestring == w.linestring.subrange(
            e.idx_of_node1 as int,
            e.idx_of_node2 as int + 1,
        )
    }
}

/// The first n chained edges concatenate to the way's polyline up to the
/// nth cut.
proof fn lemma_concat_prefix(
    f: Seq<EdgeV>,
    ways: Seq<(i64, WayView)>,
    wid: i64,
    w: WayView,
    n: int,
)
    requires
        id_find(ways, wid) == Some(w),
        w.linestring.len() == w.node_ids.len(),
        1 <= n <= f.len(),
        forall|k: int| 0 <= k < f.len() ==> (#[trigger] f[k]).osm_way == wid,
        forall|k: int| 0 <= k < f.len() ==> edge_valid_polyline(ways, #[trigger] f[k]),
        f[0].idx_of_node1 == 0,
        forall|k: int| 0 <= k < f.len() - 1 ==> f[k + 1].idx_of_node1 == (#[trigger] f[k]).idx_of_node2,
    ensures
        concat_polylines(f.subrange(0, n)) == w.linestring.subrange(
            0,
            f[n - 1].idx_of_node2 + 1,
        ),
    decreases n,
{
    if n == 1 {
        assert(f.subrange(0, 1).len() == 1);
        assert(f.subrange(0, 1)[0] == f[0]);
        assert(concat_polylines(f.subrange(0, 1)) == f[0].linestring);
        assert(f[0].linestring =~= w.linestring.subrange(0, f[0].idx_of_node2 + 1));
    } else {
        lemma_concat_prefix(f, ways, wid, w, n - 1);
        let pre = f.subrange(0, n - 1);
        let cur = f.subrange(0, n);
        assert(cur.drop_last() =~= pre);
        assert(cur.last() == f[n - 1]);
        assert(cur.len() >= 2);
        let e = f[n - 1];
        assert(f[n - 2].idx_of_node2 == e.idx_of_node1) by {
            assert(f[(n - 2) + 1].idx_of_node1 == f[n - 2].idx_of_node2);
        }
        assert(e.linestring == w.linestring.subrange(
            e.idx_of_node1 as int,
            e.idx_of_node2 as int + 1,
        ));
        assert(concat_polylines(cur) == concat_polylines(pre) + e.linestring.drop_first());
        assert(concat_polylines(cur) =~= w.linestring.subrange(0, e.idx_of_node2 + 1));
    }
}

/// Appending an edge of another way leaves a way's edge list unchanged;
/// appending one of its own extends it.
proof fn lemma_edges_of_way_push(es: Seq<EdgeV>, e: EdgeV, wid: i64)
    ensures
        edges_of_way(es.push(e), wid) == if e.osm_way == wid {
            edges_of_way(es, wid).push(e)
        } else {
            edges_of_way(es, wid)
        },
{
    let u = es.push(e);
    assert(u.drop_last() =~= es);
    assert(u.last() == e);
    if e.osm_way == wid {
        assert(edges_of_way(u, wid) =~= edges_of_way(es, wid).push(e));
    } else {
        assert(edges_of_way(u, wid) =~= edges_of_way(es, wid));
    }
}

/// Every filtered edge belongs to the way.
proof fn lemma_edges_of_way_members(es: Seq<EdgeV>, wid: i64)
    ensures
        forall|k: int|
            0 <= k < edges_of_way(es, wid).len() ==> (#[trigger] edges_of_way(es, wid)[k]).osm_way
                == wid,
    decreases es.len(),
{
    if es.len() > 0 {
        lemma_edges_of_way_members(es.drop_last(), wid);
        let f = edges_of_way(es, wid);
        let p = edges_of_way(es.drop_last(), wid);
        assert forall|k: int| 0 <= k < f.len() implies (#[trigger] f[k]).osm_way == wid by {
            if k < p.len() {
                assert(f[k] == p[k]);
            } else {
                assert(f[k] == es.last());
            }
        }
    }
}

/// Every filtered edge is one of the list's edges.
proof fn lemma_edges_of_way_subset(es: Seq<EdgeV>, wid: i64)
    ensures
        forall|k: int|
            0 <= k < edges_of_way(es, wid).len() ==> exists|p: int|
                0 <= p < es.len() && es[p] == #[trigger] edges_of_way(es, wid)[k],
    decreases es.len(),
{
    if es.len() > 0 {
        lemma_edges_of_way_subset(es.drop_last(), wid);
        let f = edges_of_way(es, wid);
        let pf = edges_of_way(es.drop_last(), wid);
        assert forall|k: int| 0 <= k < f.len() implies exists|p: int|
            0 <= p < es.len() && es[p] == #[trigger] f[k] by {
            if k < pf.len() {
                assert(f[k] == pf[k]);
                let p = choose|p: int| 0 <= p < es.drop_last().len() && es.drop_last()[p] == pf[k];
                assert(es[p] == f[k]);
            } else {
                assert(f[k] == es.last());
                assert(es[es.len() - 1] == f[k]);
            }
        }
    }
}

/// Graph reconstruction, end to end: for a graph whose edges are all
/// faithful way segments and which covers a way with at least two nodes,
/// concatenating that way's edges' polylines reproduces the way's polyline
/// exactly. The builder's contract supplies every premise.
pub proof fn lemma_built_graph_reconstructs(
    es: Seq<EdgeV>,
    ways: Seq<(i64, WayView)>,
    wid: i64,
    w: WayView,
)
    requires
        forall|k: int| 0 <= k < es.len() ==> edge_way_valid(ways, #[trigger] es[k]),
        id_find(ways, wid) == Some(w),
        w.linestring.len() == w.node_ids.len(),
        way_covered(es, ways, wid, w),
    ensures
        concat_polylines(edges_of_way(es, wid)) == w.linestring,
{
    lemma_edges_of_way_subset(es, wid);
    assert forall|k: int| 0 <= k < edges_of_way(es, wid).len() implies edge_valid_polyline(
        ways,
        #[trigger] edges_of_way(es, wid)[k],
    ) by {
        let p = choose|p: int| 0 <= p < es.len() && es[p] == edges_of_way(es, wid)[k];
        assert(edge_way_valid(ways, es[p]));
    }
    lemma_graph_reconstruction(es, ways, wid, w);
}

impl Speedwalk {
    /// Is this node mentioned at least twice across all ways' node lists?
    fn node_shared(&self, n: i64) -> (r: bool)
        ensures
            r == (node_occurrences(self.derived_ways@, n) >= 2),
    {
        let ghost ways = self.derived_ways@;
        let count = self.derived_ways.len();
        let mut seen: u64 = 0;
        let mut i: usize = 0;
        proof {
            assert(ways.subrange(0, 0) =~= Seq::<(i64, WayView)>::empty());
        }
        while i < count
            invariant
                count == ways.len(),
                self.derived_ways@ == ways,
                i <= count,
                seen <= 2,
                seen == if node_occurrences(ways.subrange(0, i as int), n) >= 2 {
                    2u64
                } else {
                    node_occurrences(ways.subrange(0, i as int), n) as u64
                },
            decreases count - i,
        {
            proof {
                let cur = ways.subrange(0, i as int + 1);
                assert(cur.drop_last() =~= ways.subrange(0, i as int));
                assert(cur.last() == ways[i as int]);
            }
            let w = self.derived_ways.value_at(i);
            let ghost idsv = ways[i as int].1.node_ids;
            let n_ids = w.node_ids.len();
            let mut occ: u64 = 0;
            let mut p: usize = 0;
            proof {
                assert(idsv.subrange(0, 0) =~= Seq::<i64>::empty());
            }
            while p < n_ids
                invariant
                    n_ids == idsv.len(),
                    w@.node_ids == idsv,
                    p <= n_ids,
                    occ <= p,
                    occ == count_occ(idsv.subrange(0, p as int), n),
                decreases n_ids - p,
            {
                proof {
                    let cur = idsv.subrange(0, p as int + 1);
                    assert(cur.drop_last() =~= idsv.subrange(0, p as int));
                    assert(cur.last() == idsv[p as int]);
                }
                if w.node_ids[p] == n {
                    occ = occ + 1;
                }
                p += 1;
            }
            proof {
                assert(idsv.subrange(0, n_ids as int) =~= idsv);
            }
            let occ2 = if occ > 2 {
                2
            } else {
                occ
            };
            seen = if seen + occ2 > 2 {
                2
            } else {
                seen + occ2
            };
            i += 1;
        }
        proof {
            assert(ways.subrange(0, count as int) =~= ways);
        }
        seen >= 2
    }
}

/// An exact copy of part of an identifier list.
fn copy_id_subrange(v: &Vec<i64>, a: usize, b: usize) -> (r: Vec<i64>)
    requires
        a <= b <= v@.len(),
    ensures
        r@ == v@.subrange(a as int, b as int),
{
    let mut r: Vec<i64> = Vec::new();
    let mut i: usize = a;
    while i < b
        invariant
            a <= i <= b <= v@.len(),
            r@ =~= v@.subrange(a as int, i as int),
        decreases b - i,
    {
        r.push(v[i]);
        proof {
            assert(r@ =~= v@.subrange(a as int, i as int + 1));
        }
        i += 1;
    }
    proof {
        assert(r@ =~= v@.subrange(a as int, b as int));
    }
    r
}

/// An exact copy of part of a point list.
fn copy_pt_subrange(v: &Vec<(i64, i64)>, a: usize, b: usize) -> (r: Vec<(i64, i64)>)
    requires
        a <= b <= v@.len(),
    ensures
        r@ == v@.subrange(a as int, b as int),
{
    let mut r: Vec<(i64, i64)> = Vec::new();
    let mut i: usize = a;
    while i < b
        invariant
            a <= i <= b <= v@.len(),
            r@ =~= v@.subrange(a as int, i as int),
        decreases b - i,
    {
        r.push(v[i]);
        proof {
            assert(r@ =~= v@.subrange(a as int, i as int + 1));
        }
        i += 1;
    }
    proof {
        assert(r@ =~= v@.subrange(a as int, b as int));
    }
    r
}

/// The way facts of `edge_valid`: stable once established.
pub open spec fn edge_way_valid(ways: Seq<(i64, WayView)>, e: EdgeV) -> bool {
    &&& id_has(ways, e.osm_way)
    &&& {
        let w = id_find(ways, e.osm_way).unwrap();
        &&& e.idx_of_node1 < e.idx_of_node2 < w.node_ids.len()
        &&& e.node_ids == w.node_ids.subrange(e.idx_of_node1 as int, e.idx_of_node2 as int + 1)
        &&& w.linestring.len() == w.node_ids.len() ==> e.linestring == w.linestring.subrange(
            e.idx_of_node1 as int,
            e.idx_of_node2 as int + 1,
        )
        &&& e.osm_node1 == w.node_ids[e.idx_of_node1 as int]
        &&& e.osm_node2 == w.node_ids[e.idx_of_node2 as int]
        &&& e.osm_tags == w.tags
    }
}

/// The intersection facts of `edge_valid`.
pub open spec fn edge_inter_valid(is: Seq<IntersectionV>, e: EdgeV) -> bool {
    &&& match inter_find(is, e.src) {
        Some(i) => i.osm_node == e.osm_node1,
        None => false,
    }
    &&& match inter_find(is, e.dst) {
        Some(i) => i.osm_node == e.osm_node2,
        None => false,
    }
}

/// Appending an intersection never disturbs an identifier already found.
proof fn lemma_inter_find_push(is: Seq<IntersectionV>, x: IntersectionV, iid: IntersectionID)
    requires
        inter_find(is, iid) is Some,
    ensures
        inter_find(is.push(x), iid) == inter_find(is, iid),
    decreases is.len(),
{
    if is.len() > 0 {
        if is[0].id == iid {
            assert(is.push(x)[0] == is[0]);
        } else {
            lemma_inter_find_push(is.drop_first(), x, iid);
            assert(is.push(x).drop_first() =~= is.drop_first().push(x));
        }
    }
}

/// Appending an intersection with a fresh identifier makes it findable.
proof fn lemma_inter_find_push_new(is: Seq<IntersectionV>, x: IntersectionV)
    requires
        forall|a: int| 0 <= a < is.len() ==> (#[trigger] is[a]).id != x.id,
    ensures
        inter_find(is.push(x), x.id) == Some(x),
    decreases is.len(),
{
    if is.len() == 0 {
        assert(is.push(x)[0] == x);
    } else {
        assert(is.push(x)[0] == is[0]);
        assert(is[0].id != x.id);
        lemma_inter_find_push_new(is.drop_first(), x);
        assert(is.push(x).drop_first() =~= is.drop_first().push(x));
    }
}

/// The intersection at a position is found under its identifier, when
/// identifiers are distinct.
proof fn lemma_inter_find_at(is: Seq<IntersectionV>, a: int)
    requires
        0 <= a < is.len(),
        forall|p: int, q: int| 0 <= p < q < is.len() ==> (#[trigger] is[p]).id != (#[trigger] is[q]).id,
    ensures
        inter_find(is, is[a].id) == Some(is[a]),
    decreases is.len(),
{
    if a > 0 {
        assert(is[0].id != is[a].id);
        lemma_inter_find_at(is.drop_first(), a - 1);
        assert(is.drop_first()[a - 1] == is[a]);
    }
}

/// Two intersection lists that agree on identifiers and nodes resolve
/// identifiers to the same node.
proof fn lemma_inter_find_same_ids(
    is1: Seq<IntersectionV>,
    is2: Seq<IntersectionV>,
    iid: IntersectionID,
)
    requires
        is1.len() == is2.len(),
        forall|a: int|
            0 <= a < is1.len() ==> (#[trigger] is1[a]).id == is2[a].id && is1[a].osm_node
                == is2[a].osm_node,
    ensures
        match (inter_find(is1, iid), inter_find(is2, iid)) {
            (Some(x), Some(y)) => x.osm_node == y.osm_node,
            (None, None) => true,
            _ => false,
        },
    decreases is1.len(),
{
    if is1.len() > 0 {
        assert(is1[0].id == is2[0].id);
        if is1[0].id != iid {
            lemma_inter_find_same_ids(is1.drop_first(), is2.drop_first(), iid);
        }
    }
}

/// A list with no matching edge filters to nothing.
proof fn lemma_edges_of_way_none(es: Seq<EdgeV>, wid: i64)
    requires
        forall|k: int| 0 <= k < es.len() ==> (#[trigger] es[k]).osm_way != wid,
    ensures
        edges_of_way(es, wid) == Seq::<EdgeV>::empty(),
    decreases es.len(),
{
    if es.len() > 0 {
        lemma_edges_of_way_none(es.drop_last(), wid);
        assert(edges_of_way(es, wid) =~= Seq::<EdgeV>::empty());
    } else {
        assert(edges_of_way(es, wid) =~= Seq::<EdgeV>::empty());
    }
}

impl Graph {
    pub open spec fn eview(&self) -> Seq<EdgeV> {
        self.edges@.map_values(|e: Edge| e@)
    }

    pub open spec fn iview(&self) -> Seq<IntersectionV> {
        self.intersections@.map_values(|i: Intersection| i@)
    }

    /// Build the topology graph from the derived store. Every edge is a
    /// faithful segment of its way; the edges of each way with at least two
    /// nodes chain across the whole way, cut exactly at the segment
    /// boundaries; a way with fewer than two nodes contributes no edge;
    /// intersections are unique per node and their incidence lists hold
    /// exactly the incident edge ends.
    pub fn new(model: &Speedwalk) -> (g: Graph)
        requires
            model.derived_ways.wf(),
            crate::edits::ways_len_ok(model.derived_ways@),
            model.derived_ways@.len() < 0x100000,
            forall|j: int|
                0 <= j < model.derived_ways@.len()
                    ==> (#[trigger] model.derived_ways@[j]).1.node_ids.len() < 0x100000,
        ensures
            forall|k: int|
                0 <= k < g.eview().len() ==> edge_way_valid(
                    model.derived_ways@,
                    #[trigger] g.eview()[k],
                ),
            forall|k: int|
                0 <= k < g.eview().len() ==> edge_inter_valid(g.iview(), #[trigger] g.eview()[k]),
            forall|j: int|
                0 <= j < model.derived_ways@.len()
                    && (#[trigger] model.derived_ways@[j]).1.node_ids.len() >= 2 ==> way_covered(
                    g.eview(),
                    model.derived_ways@,
                    model.derived_ways@[j].0,
                    model.derived_ways@[j].1,
                ),
            forall|j: int|
                0 <= j < model.derived_ways@.len()
                    && (#[trigger] model.derived_ways@[j]).1.node_ids.len() < 2 ==> edges_of_way(
                    g.eview(),
                    model.derived_ways@[j].0,
                ).len() == 0,
            forall|a: int, b: int|
                0 <= a < b < g.iview().len() ==> (#[trigger] g.iview()[a]).osm_node != (
                #[trigger] g.iview()[b]).osm_node,
            forall|a: int|
                0 <= a < g.iview().len() ==> (#[trigger] g.iview()[a]).edges == incident_edges(
                    g.eview(),
                    g.iview()[a].id,
                ),
    {
        let ghost ways = model.derived_ways@;
        let mut edges: Vec<Edge> = Vec::new();
        let mut inters: Vec<Intersection> = Vec::new();
        let mut counter: u64 = 0;
        let ways_n = model.derived_ways.len();
        let mut wi: usize = 0;
        proof {
            assert(edges@.map_values(|e: Edge| e@) =~= Seq::<EdgeV>::empty());
            assert(inters@.map_values(|i: Intersection| i@) =~= Seq::<IntersectionV>::empty());
        }
        while wi < ways_n
            invariant
                ways_n == ways.len(),
                model.derived_ways@ == ways,
                crate::idmap::id_sorted(ways),
                crate::edits::ways_len_ok(ways),
                ways.len() < 0x100000,
                forall|j: int|
                    0 <= j < ways.len() ==> (#[trigger] ways[j]).1.node_ids.len() < 0x100000,
                wi <= ways_n,
                counter <= (3 * 0x100000) * (wi as u64),
                ({
                    let ev = edges@.map_values(|e: Edge| e@);
                    let iv = inters@.map_values(|i: Intersection| i@);
                    &&& forall|k: int| 0 <= k < ev.len() ==> edge_way_valid(ways, #[trigger] ev[k])
                    &&& forall|k: int| 0 <= k < ev.len() ==> edge_inter_valid(iv, #[trigger] ev[k])
                    &&& forall|k: int|
                        0 <= k < ev.len() ==> exists|j: int|
                            0 <= j < wi && (#[trigger] ev[k]).osm_way == ways[j].0
                    &&& forall|j: int|
                        0 <= j < wi && (#[trigger] ways[j]).1.node_ids.len() >= 2 ==> way_covered(
                            ev,
                            ways,
                            ways[j].0,
                            ways[j].1,
                        )
                    &&& forall|j: int|
                        0 <= j < wi && (#[trigger] ways[j]).1.node_ids.len() < 2 ==> edges_of_way(
                            ev,
                            ways[j].0,
                        ).len() == 0
                    &&& forall|a: int, b: int|
                        0 <= a < b < iv.len() ==> (#[trigger] iv[a]).osm_node != (
                        #[trigger] iv[b]).osm_node
                    &&& forall|a: int, b: int|
                        0 <= a < b < iv.len() ==> (#[trigger] iv[a]).id != (#[trigger] iv[b]).id
                    &&& forall|a: int| 0 <= a < iv.len() ==> (#[trigger] iv[a]).id.0 < counter
                    &&& forall|a: int|
                        0 <= a < iv.len() ==> (#[trigger] iv[a]).edges == Seq::<EdgeID>::empty()
                }),
            decreases ways_n - wi,
        {
            let wid = model.derived_ways.key_at(wi);
            let ghost w = ways[wi as int].1;
            proof {
                lemma_id_find_sorted_at(ways, wi as int);
            }
            let way_len = model.derived_ways.value_at(wi).node_ids.len();
            if way_len >= 2 {
                let ghost c_in = counter;
                let mut idx1: usize = 0;
                let mut idx: usize = 1;
                proof {
                    lemma_id_find_sorted_at(ways, wi as int);
                    assert(id_find(ways, wid) == Some(w));
                    let ev = edges@.map_values(|e: Edge| e@);
                    assert forall|k: int| 0 <= k < ev.len() implies (#[trigger] ev[k]).osm_way
                        != wid by {
                        let j = choose|j: int| 0 <= j < wi && ev[k].osm_way == ways[j].0;
                        assert(ways[j].0 < ways[wi as int].0);
                    }
                    lemma_edges_of_way_none(ev, wid);
                }
                while idx < way_len
                    invariant
                        ways_n == ways.len(),
                        model.derived_ways@ == ways,
                        crate::idmap::id_sorted(ways),
                        crate::edits::ways_len_ok(ways),
                        ways.len() < 0x100000,
                        forall|j: int|
                            0 <= j < ways.len() ==> (#[trigger] ways[j]).1.node_ids.len()
                                < 0x100000,
                        wi < ways_n,
                        wid == ways[wi as int].0,
                        w == ways[wi as int].1,
                        id_find(ways, wid) == Some(w),
                        way_len == w.node_ids.len(),
                        2 <= way_len,
                        1 <= idx <= way_len,
                        idx1 < idx,
                        idx == way_len ==> idx1 == way_len - 1,
                        counter <= c_in + 3 * (idx as u64),
                        c_in <= (3 * 0x100000) * (wi as u64),
                        ({
                            let ev = edges@.map_values(|e: Edge| e@);
                            let iv = inters@.map_values(|i: Intersection| i@);
                            let f = edges_of_way(ev, wid);
                            &&& forall|k: int|
                                0 <= k < ev.len() ==> edge_way_valid(ways, #[trigger] ev[k])
                            &&& forall|k: int|
                                0 <= k < ev.len() ==> edge_inter_valid(iv, #[trigger] ev[k])
                            &&& forall|k: int|
                                0 <= k < ev.len() ==> exists|j: int|
                                    0 <= j <= wi && (#[trigger] ev[k]).osm_way == ways[j].0
                            &&& forall|j: int|
                                0 <= j < wi && (#[trigger] ways[j]).1.node_ids.len() >= 2
                                    ==> way_covered(ev, ways, ways[j].0, ways[j].1)
                            &&& forall|j: int|
                                0 <= j < wi && (#[trigger] ways[j]).1.node_ids.len() < 2
                                    ==> edges_of_way(ev, ways[j].0).len() == 0
                            &&& forall|a: int, b: int|
                                0 <= a < b < iv.len() ==> (#[trigger] iv[a]).osm_node != (
                                #[trigger] iv[b]).osm_node
                            &&& forall|a: int, b: int|
                                0 <= a < b < iv.len() ==> (#[trigger] iv[a]).id != (
                                #[trigger] iv[b]).id
                            &&& forall|a: int| 0 <= a < iv.len() ==> (#[trigger] iv[a]).id.0 < counter
                            &&& forall|a: int|
                                0 <= a < iv.len() ==> (#[trigger] iv[a]).edges == Seq::<
                                    EdgeID,
                                >::empty()
                            &&& (f.len() == 0 ==> idx1 == 0)
                            &&& (f.len() > 0 ==> f[0].idx_of_node1 == 0 && f.last().idx_of_node2
                                == idx1)
                            &&& forall|k: int|
                                0 <= k < f.len() - 1 ==> f[k + 1].idx_of_node1 == (
                                #[trigger] f[k]).idx_of_node2
                            &&& forall|k: int, j: int|
                                0 <= k < f.len() && (#[trigger] f[k]).idx_of_node1 < j < f[
                                    k].idx_of_node2 ==> !#[trigger] is_boundary(ways, w, j)
                            &&& forall|k: int|
                                0 <= k < f.len() ==> is_boundary(
                                    ways,
                                    w,
                                    (#[trigger] f[k]).idx_of_node2 as int,
                                )
                            &&& forall|j: int|
                                idx1 < j < idx ==> !#[trigger] is_boundary(ways, w, j)
                        }),
                    decreases way_len - idx,
                {
                    let node = model.derived_ways.value_at(wi).node_ids[idx];
                    let cut = idx == way_len - 1 || model.node_shared(node);
                    if cut {
                        proof {
                            assert(is_boundary(ways, w, idx as int));
                        }
                        let ghost ev0 = edges@.map_values(|e: Edge| e@);
                        let ghost iv0 = inters@.map_values(|i: Intersection| i@);
                        let w_ref = model.derived_ways.value_at(wi);
                        let n1 = w_ref.node_ids[idx1];
                        let n2 = w_ref.node_ids[idx];
                        let seg_nodes = copy_id_subrange(&w_ref.node_ids, idx1, idx + 1);
                        let seg_pts = copy_pt_subrange(&w_ref.linestring, idx1, idx + 1);
                        let seg_tags = w_ref.tags.duplicate();
                        proof {
                            assert((3 * 0x100000) * (wi as u64) <= (3 * 0x100000) * 0x100000u64)
                                by (nonlinear_arith)
                                requires
                                    (wi as u64) <= 0x100000u64,
                            ;
                        }
                        let edge_id = EdgeID(counter);
                        counter = counter + 1;
                        let p1 = (w_ref.linestring[idx1].0, w_ref.linestring[idx1].1);
                        let p2 = (w_ref.linestring[idx].0, w_ref.linestring[idx].1);
                        let src = get_or_create_intersection(&mut inters, &mut counter, n1, p1);
                        let ghost iv1 = inters@.map_values(|i: Intersection| i@);
                        let dst = get_or_create_intersection(&mut inters, &mut counter, n2, p2);
                        let ghost iv2 = inters@.map_values(|i: Intersection| i@);
                        proof {
                            if inter_find(iv1, src) is Some {
                                if iv2.len() > iv1.len() {
                                    lemma_inter_find_push(iv1, iv2.last(), src);
                                    assert(iv2 =~= iv1.push(iv2.last()));
                                }
                            }
                        }
                        let e = Edge {
                            id: edge_id,
                            src,
                            dst,
                            osm_way: wid,
                            osm_node1: n1,
                            osm_node2: n2,
                            osm_tags: seg_tags,
                            node_ids: seg_nodes,
                            idx_of_node1: idx1,
                            idx_of_node2: idx,
                            linestring: seg_pts,
                        };
                        let ghost evv = e@;
                        edges.push(e);
                        proof {
                            let ev1 = edges@.map_values(|e2: Edge| e2@);
                            assert(ev1 =~= ev0.push(evv));
                            assert(edge_way_valid(ways, evv));
                            assert(edge_inter_valid(iv2, evv));
                            assert forall|k: int|
                                0 <= k < ev0.len() implies edge_inter_valid(
                                iv2,
                                #[trigger] ev0[k],
                            ) by {
                                if iv1.len() > iv0.len() {
                                    lemma_inter_find_push(iv0, iv1.last(), ev0[k].src);
                                    lemma_inter_find_push(iv0, iv1.last(), ev0[k].dst);
                                    assert(iv1 =~= iv0.push(iv1.last()));
                                }
                                if iv2.len() > iv1.len() {
                                    lemma_inter_find_push(iv1, iv2.last(), ev0[k].src);
                                    lemma_inter_find_push(iv1, iv2.last(), ev0[k].dst);
                                    assert(iv2 =~= iv1.push(iv2.last()));
                                }
                            }
                            lemma_edges_of_way_push(ev0, evv, wid);
                            assert forall|j: int|
                                0 <= j < ways.len() && j != wi implies edges_of_way(
                                ev1,
                                #[trigger] ways[j].0,
                            ) == edges_of_way(ev0, ways[j].0) by {
                                assert(ways[j].0 != wid) by {
                                    if j < wi as int {
                                        assert(ways[j].0 < ways[wi as int].0);
                                    } else {
                                        assert(ways[wi as int].0 < ways[j].0);
                                    }
                                }
                                lemma_edges_of_way_push(ev0, evv, ways[j].0);
                            }
                        }
                        idx1 = idx;
                    } else {
                        proof {
                            assert(!is_boundary(ways, w, idx as int));
                        }
                    }
                    idx += 1;
                }
                proof {
                    let ev = edges@.map_values(|e: Edge| e@);
                    let f = edges_of_way(ev, wid);
                    assert(f.len() >= 1);
                    assert(way_covered(ev, ways, wid, w));
                    assert((3 * 0x100000) * (wi as u64 + 1) >= c_in + 3 * (way_len as u64)) by {
                        assert((3 * 0x100000) * (wi as u64 + 1) == (3 * 0x100000) * (wi as u64) + 3
                            * 0x100000) by (nonlinear_arith);
                    }
                }
            } else {
                proof {
                    let ev = edges@.map_values(|e: Edge| e@);
                    assert forall|k: int| 0 <= k < ev.len() implies (#[trigger] ev[k]).osm_way
                        != wid by {
                        let j = choose|j: int| 0 <= j < wi && ev[k].osm_way == ways[j].0;
                        assert(ways[j].0 < ways[wi as int].0);
                    }
                    lemma_edges_of_way_none(ev, wid);
                    assert((3 * 0x100000) * (wi as u64 + 1) >= counter) by {
                        assert((3 * 0x100000) * (wi as u64 + 1) == (3 * 0x100000) * (wi as u64) + 3
                            * 0x100000) by (nonlinear_arith);
                    }
                }
            }
            wi += 1;
        }

        // Second pass: fill every intersection's incidence list from the
        // final edge list.
        let ghost ev_fin = edges@.map_values(|e: Edge| e@);
        let ghost iv_fin = inters@.map_values(|i: Intersection| i@);
        let n_int = inters.len();
        let mut filled: Vec<Intersection> = Vec::new();
        let mut a: usize = 0;
        while a < n_int
            invariant
                n_int == inters@.len(),
                ev_fin == edges@.map_values(|e: Edge| e@),
                iv_fin == inters@.map_values(|i: Intersection| i@),
                a <= n_int,
                filled@.len() == a,
                forall|p: int|
                    0 <= p < a ==> {
                        let fv = (#[trigger] filled@[p])@;
                        &&& fv.id == iv_fin[p].id
                        &&& fv.osm_node == iv_fin[p].osm_node
                        &&& fv.point == iv_fin[p].point
                        &&& fv.edges == incident_edges(ev_fin, iv_fin[p].id)
                    },
            decreases n_int - a,
        {
            let iid = inters[a].id;
            let mut inc: Vec<EdgeID> = Vec::new();
            let n_e = edges.len();
            let mut k: usize = 0;
            proof {
                assert(ev_fin.subrange(0, 0) =~= Seq::<EdgeV>::empty());
                assert(inc@ =~= incident_edges(ev_fin.subrange(0, 0), iid));
            }
            while k < n_e
                invariant
                    n_e == ev_fin.len(),
                    ev_fin == edges@.map_values(|e: Edge| e@),
                    k <= n_e,
                    inc@ == incident_edges(ev_fin.subrange(0, k as int), iid),
                decreases n_e - k,
            {
                proof {
                    let cur = ev_fin.subrange(0, k as int + 1);
                    assert(cur.drop_last() =~= ev_fin.subrange(0, k as int));
                    assert(cur.last() == ev_fin[k as int]);
                }
                if edges[k].src == iid {
                    inc.push(edges[k].id);
                }
                if edges[k].dst == iid {
                    inc.push(edges[k].id);
                }
                proof {
                    assert(inc@ =~= incident_edges(ev_fin.subrange(0, k as int + 1), iid));
                }
                k += 1;
            }
            proof {
                assert(ev_fin.subrange(0, n_e as int) =~= ev_fin);
            }
            let src = &inters[a];
            filled.push(
                Intersection { id: src.id, edges: inc, osm_node: src.osm_node, point: src.point },
            );
            a += 1;
        }
        let g = Graph { edges, intersections: filled };
        proof {
            let gi = g.iview();
            assert(gi.len() == iv_fin.len());
            assert forall|p: int| 0 <= p < gi.len() implies (#[trigger] gi[p]).id == iv_fin[p].id
                && gi[p].osm_node == iv_fin[p].osm_node && gi[p].edges == incident_edges(
                ev_fin,
                iv_fin[p].id,
            ) by {
                assert(gi[p] == filled@[p]@);
            }
            assert forall|k: int| 0 <= k < g.eview().len() implies edge_inter_valid(
                gi,
                #[trigger] g.eview()[k],
            ) by {
                assert(edge_inter_valid(iv_fin, g.eview()[k]));
                lemma_inter_find_same_ids(iv_fin, gi, g.eview()[k].src);
                lemma_inter_find_same_ids(iv_fin, gi, g.eview()[k].dst);
            }
        }
        g
    }
}

/// Find the intersection registered for a node, or register a new one with
/// the next identifier.
fn get_or_create_intersection(
    inters: &mut Vec<Intersection>,
    counter: &mut u64,
    n: i64,
    p: (i64, i64),
) -> (r: IntersectionID)
    requires
        ({
            let iv0 = old(inters)@.map_values(|i: Intersection| i@);
            &&& forall|a: int, b: int|
                0 <= a < b < iv0.len() ==> (#[trigger] iv0[a]).osm_node != (
                #[trigger] iv0[b]).osm_node
            &&& forall|a: int, b: int|
                0 <= a < b < iv0.len() ==> (#[trigger] iv0[a]).id != (#[trigger] iv0[b]).id
            &&& forall|a: int| 0 <= a < iv0.len() ==> (#[trigger] iv0[a]).id.0 < *old(counter)
        }),
        *old(counter) < 0xffff_ffff_ffff_ffff,
    ensures
        ({
            let iv0 = old(inters)@.map_values(|i: Intersection| i@);
            let iv1 = final(inters)@.map_values(|i: Intersection| i@);
            &&& (final(inters)@.len() == old(inters)@.len() || final(inters)@.len() == old(
                inters,
            )@.len() + 1)
            &&& (final(inters)@.len() == old(inters)@.len() ==> iv1 == iv0 && *final(counter)
                == *old(counter))
            &&& (final(inters)@.len() == old(inters)@.len() + 1 ==> iv1 =~= iv0.push(
                IntersectionV {
                    id: IntersectionID(*old(counter)),
                    edges: Seq::empty(),
                    osm_node: n,
                    point: p,
                },
            ) && *final(counter) == *old(counter) + 1 && r == IntersectionID(*old(counter)))
            &&& match inter_find(iv1, r) {
                Some(i) => i.osm_node == n,
                None => false,
            }
            &&& forall|a: int, b: int|
                0 <= a < b < iv1.len() ==> (#[trigger] iv1[a]).osm_node != (
                #[trigger] iv1[b]).osm_node
            &&& forall|a: int, b: int|
                0 <= a < b < iv1.len() ==> (#[trigger] iv1[a]).id != (#[trigger] iv1[b]).id
            &&& forall|a: int| 0 <= a < iv1.len() ==> (#[trigger] iv1[a]).id.0 < *final(counter)
            &&& forall|a: int|
                0 <= a < iv1.len() ==> (#[trigger] iv1[a]).edges == (#[trigger] iv1[a]).edges
            &&& (forall|a: int|
                0 <= a < iv0.len() ==> (#[trigger] iv0[a]).edges == Seq::<EdgeID>::empty())
                ==> forall|a: int|
                0 <= a < iv1.len() ==> (#[trigger] iv1[a]).edges == Seq::<EdgeID>::empty()
            &&& *final(counter) >= *old(counter)
            &&& *final(counter) <= *old(counter) + 1
        }),
{
    let ghost iv0 = inters@.map_values(|i: Intersection| i@);
    let count = inters.len();
    let mut a: usize = 0;
    while a < count
        invariant
            count == inters@.len(),
            inters@.map_values(|i: Intersection| i@) == iv0,
            iv0 == old(inters)@.map_values(|i: Intersection| i@),
            *counter == *old(counter),
            a <= count,
            forall|q: int| 0 <= q < a ==> (#[trigger] iv0[q]).osm_node != n,
            forall|p2: int, q: int|
                0 <= p2 < q < iv0.len() ==> (#[trigger] iv0[p2]).osm_node != (
                #[trigger] iv0[q]).osm_node,
            forall|p2: int, q: int|
                0 <= p2 < q < iv0.len() ==> (#[trigger] iv0[p2]).id != (#[trigger] iv0[q]).id,
            forall|q: int| 0 <= q < iv0.len() ==> (#[trigger] iv0[q]).id.0 < *counter,
        decreases count - a,
    {
        if inters[a].osm_node == n {
            proof {
                lemma_inter_find_at(iv0, a as int);
            }
            return inters[a].id;
        }
        a += 1;
    }
    let id = IntersectionID(*counter);
    *counter = *counter + 1;
    let x = Intersection { id, edges: Vec::new(), osm_node: n, point: p };
    proof {
        assert(x@.edges =~= Seq::<EdgeID>::empty());
    }
    inters.push(x);
    proof {
        let iv1 = inters@.map_values(|i: Intersection| i@);
        assert(iv1 =~= iv0.push(
            IntersectionV { id, edges: Seq::empty(), osm_node: n, point: p },
        ));
        assert forall|q: int| 0 <= q < iv0.len() implies (#[trigger] iv0[q]).id != id by {
            assert(iv0[q].id.0 < id.0);
        }
        lemma_inter_find_push_new(iv0, iv1.last());
    }
    id
}

/// In a sorted entry list, the entry at any position is what lookup finds.
proof fn lemma_id_find_sorted_at(ways: Seq<(i64, WayView)>, i: int)
    requires
        crate::idmap::id_sorted(ways),
        0 <= i < ways.len(),
    ensures
        id_find(ways, ways[i].0) == Some(ways[i].1),
    decreases ways.len(),
{
    if i > 0 {
        assert(ways[0].0 < ways[i].0);
        lemma_id_find_sorted_at(ways.drop_first(), i - 1);
        assert(ways.drop_first()[i - 1] == ways[i]);
    }
}

} // verus!

//! The routable-network filter and its connectivity analysis: which edges a
//! pedestrian can use, dead-end chains too short to matter, and the
//! connected components of what remains.

use vstd::prelude::*;
use std::collections::hash_map::RandomState;
use petgraph::graphmap::GraphMap;
use petgraph::Undirected;
use crate::classify::Kind;
use crate::store::{WayView, Speedwalk};
use crate::tags::tag_is;
use crate::idmap::id_find;
use crate::graph::{Graph, Edge, EdgeV, IntersectionV};
use crate::geomath::polyline_len;
use vstd::multiset::Multiset;

verus! {

/// Which edges a network export keeps.
#[derive(Clone, Copy, Debug, PartialEq, Eq, Structural)]
pub enum NetworkFilterType {
    Everything,
    OnlyExplicitFootways,
    RouteableNetwork,
}

#[derive(Clone, Copy, Debug, PartialEq, Eq, Structural)]
pub struct NetworkFilter {
    pub selection: NetworkFilterType,
    pub ignore_deadends: bool,
}

/// Dead-end chains shorter than this (thousandths of a unit) are suppressed.
pub open spec fn spec_min_deadend_len() -> int {
    10000
}

/// Components shorter than this (thousandths of a unit) are suppressed.
pub open spec fn spec_min_component_len() -> int {
    100000
}

/// Is a way's edge included, by kind: everything; only separately mapped
/// footways; or the routable network, where roads without sidewalks count
/// only if their class tolerates walking, separate-sidewalk roads defer to
/// their sidewalks, and construction is never routable.
pub open spec fn spec_edge_included(
    ways: Seq<(i64, WayView)>,
    selection: NetworkFilterType,
    e: EdgeV,
) -> bool {
    match id_find(ways, e.osm_way) {
        None => false,
        Some(w) => match selection {
            NetworkFilterType::Everything => true,
            NetworkFilterType::OnlyExplicitFootways => !w.kind.spec_is_road(),
            NetworkFilterType::RouteableNetwork => {
                let by_kind = match w.kind {
                    Kind::RoadWithSeparate => false,
                    Kind::RoadWithTags => true,
                    Kind::RoadWithoutSidewalksExplicit => spec_pedestrian_tolerant(w.tags),
                    Kind::RoadWithoutSidewalksImplicit => spec_pedestrian_tolerant(w.tags),
                    Kind::RoadUnknown => true,
                    Kind::Sidewalk => true,
                    Kind::Crossing => true,
                    Kind::Other => if tag_is(w.tags, "highway"@, "cycleway"@) {
                        tag_is(w.tags, "foot"@, "yes"@) || tag_is(w.tags, "foot"@, "designated"@)
                    } else {
                        true
                    },
                };
                by_kind && !tag_is(w.tags, "highway"@, "construction"@)
            },
        },
    }
}

/// Small streets a pedestrian can walk along without a sidewalk.
pub open spec fn spec_pedestrian_tolerant(t: Seq<(Seq<char>, Seq<char>)>) -> bool {
    ||| tag_is(t, "highway"@, "living_street"@)
    ||| tag_is(t, "highway"@, "pedestrian"@)
    ||| tag_is(t, "highway"@, "residential"@)
    ||| tag_is(t, "highway"@, "service"@)
}

impl Speedwalk {
    /// Is this edge in the filtered network, before dead-end suppression?
    pub fn filter_network(&self, filter: &NetworkFilter, edge: &Edge) -> (r: bool)
        ensures
            r == spec_edge_included(self.derived_ways@, filter.selection, edge@),
    {
        let found = self.derived_ways.get(edge.osm_way);
        match found {
            None => false,
            Some(w) => match filter.selection {
                NetworkFilterType::Everything => true,
                NetworkFilterType::OnlyExplicitFootways => !w.kind.is_road(),
                NetworkFilterType::RouteableNetwork => {
                    let by_kind = match w.kind {
                        Kind::RoadWithSeparate => false,
                        Kind::RoadWithTags => true,
                        Kind::RoadWithoutSidewalksExplicit => w.tags.is("highway", "living_street")
                            || w.tags.is("highway", "pedestrian") || w.tags.is(
                            "highway",
                            "residential",
                        ) || w.tags.is("highway", "service"),
                        Kind::RoadWithoutSidewalksImplicit => w.tags.is("highway", "living_street")
                            || w.tags.is("highway", "pedestrian") || w.tags.is(
                            "highway",
                            "residential",
                        ) || w.tags.is("highway", "service"),
                        Kind::RoadUnknown => true,
                        Kind::Sidewalk => true,
                        Kind::Crossing => true,
                        Kind::Other => if w.tags.is("highway", "cycleway") {
                            w.tags.is("foot", "yes") || w.tags.is("foot", "designated")
                        } else {
                            true
                        },
                    };
                    by_kind && !w.tags.is("highway", "construction")
                },
            },
        }
    }

    /// The inclusion mask of all edges, by kind alone.
    pub fn inclusion_mask(&self, filter: &NetworkFilter, graph: &Graph) -> (r: Vec<bool>)
        ensures
            r@.len() == graph.eview().len(),
            forall|k: int|
                0 <= k < r@.len() ==> r@[k] == spec_edge_included(
                    self.derived_ways@,
                    filter.selection,
                    #[trigger] graph.eview()[k],
                ),
    {
        let n = graph.edges.len();
        let mut r: Vec<bool> = Vec::new();
        let mut k: usize = 0;
        while k < n
            invariant
                n == graph.eview().len(),
                n == graph.edges@.len(),
                k <= n,
                r@.len() == k,
                forall|j: int|
                    0 <= j < k ==> r@[j] == spec_edge_included(
                        self.derived_ways@,
                        filter.selection,
                        #[trigger] graph.eview()[j],
                    ),
            decreases n - k,
        {
            let inc = self.filter_network(filter, &graph.edges[k]);
            r.push(inc);
            k += 1;
        }
        r
    }
}

/// How many included edge ends meet at an intersection.
pub open spec fn spec_degree(es: Seq<EdgeV>, inc: Seq<bool>, iid: crate::graph::IntersectionID) -> nat
    decreases es.len(),
{
    if es.len() == 0 || es.len() != inc.len() {
        0
    } else {
        spec_degree(es.drop_last(), inc.drop_last(), iid) + if inc.last() {
            (if es.last().src == iid {
                1nat
            } else {
                0nat
            }) + (if es.last().dst == iid {
                1nat
            } else {
                0nat
            })
        } else {
            0nat
        }
    }
}

/// The one included edge at an intersection other than `not_this`, if the
/// intersection has exactly one: the first such index.
pub open spec fn spec_other_included(
    es: Seq<EdgeV>,
    inc: Seq<bool>,
    iid: crate::graph::IntersectionID,
    not_this: int,
) -> Option<int>
    decreases es.len(),
{
    if es.len() == 0 || es.len() != inc.len() {
        None
    } else {
        match spec_other_included(es.drop_last(), inc.drop_last(), iid, not_this) {
            Some(k) => Some(k),
            None => {
                let k = es.len() - 1;
                if k != not_this && inc[k] && (es[k].src == iid || es[k].dst == iid) {
                    Some(k)
                } else {
                    None
                }
            },
        }
    }
}

/// Walk a dead-end chain: follow the current edge away from `from`, and
/// keep going while each intersection reached joins exactly two included
/// edge ends. The fuel bounds the walk on degenerate cycles.
pub open spec fn spec_chain_walk(
    es: Seq<EdgeV>,
    inc: Seq<bool>,
    cur: int,
    from: crate::graph::IntersectionID,
    fuel: nat,
) -> Seq<int>
    decreases fuel,
{
    let next = if es[cur].src == from {
        es[cur].dst
    } else {
        es[cur].src
    };
    if fuel == 0 {
        seq![cur]
    } else if spec_degree(es, inc, next) == 2 {
        match spec_other_included(es, inc, next, cur) {
            Some(nxt) => seq![cur] + spec_chain_walk(es, inc, nxt, next, (fuel - 1) as nat),
            None => seq![cur],
        }
    } else {
        seq![cur]
    }
}

impl Speedwalk {
    /// How many included edge ends meet at this intersection.
    fn degree_exec(&self, graph: &Graph, inc: &Vec<bool>, iid: crate::graph::IntersectionID) -> (r:
        u64)
        requires
            inc@.len() == graph.eview().len(),
            graph.eview().len() < 0x1000_0000,
        ensures
            r == spec_degree(graph.eview(), inc@, iid),
    {
        let ghost es = graph.eview();
        let n = graph.edges.len();
        let mut r: u64 = 0;
        let mut k: usize = 0;
        proof {
            assert(es.subrange(0, 0) =~= Seq::<EdgeV>::empty());
            assert(inc@.subrange(0, 0) =~= Seq::<bool>::empty());
        }
        while k < n
            invariant
                n == es.len(),
                n == graph.edges@.len(),
                n < 0x1000_0000,
                es == graph.eview(),
                inc@.len() == n,
                k <= n,
                r <= 2 * k,
                r == spec_degree(es.subrange(0, k as int), inc@.subrange(0, k as int), iid),
            decreases n - k,
        {
            proof {
                let ce = es.subrange(0, k as int + 1);
                let ci = inc@.subrange(0, k as int + 1);
                assert(ce.drop_last() =~= es.subrange(0, k as int));
                assert(ci.drop_last() =~= inc@.subrange(0, k as int));
                assert(ce.last() == es[k as int]);
                assert(ci.last() == inc@[k as int]);
            }
            if inc[k] {
                if graph.edges[k].src == iid {
                    r = r + 1;
                }
                if graph.edges[k].dst == iid {
                    r = r + 1;
                }
            }
            k += 1;
        }
        proof {
            assert(es.subrange(0, n as int) =~= es);
            assert(inc@.subrange(0, n as int) =~= inc@);
        }
        r
    }

    /// The first included edge at this intersection other than `not_this`.
    fn other_included_exec(
        &self,
        graph: &Graph,
        inc: &Vec<bool>,
        iid: crate::graph::IntersectionID,
        not_this: usize,
    ) -> (r: Option<usize>)
        requires
            inc@.len() == graph.eview().len(),
        ensures
            match r {
                Some(k) => Some(k as int) == spec_other_included(
                    graph.eview(),
                    inc@,
                    iid,
                    not_this as int,
                ) && k < graph.eview().len(),
                None => spec_other_included(graph.eview(), inc@, iid, not_this as int) is None,
            },
    {
        let ghost es = graph.eview();
        let n = graph.edges.len();
        let mut k: usize = 0;
        while k < n
            invariant
                n == es.len(),
                n == graph.edges@.len(),
                es == graph.eview(),
                inc@.len() == n,
                k <= n,
                spec_other_included(es.subrange(0, k as int), inc@.subrange(0, k as int), iid, not_this as int) is None,
            decreases n - k,
        {
            proof {
                let ce = es.subrange(0, k as int + 1);
                let ci = inc@.subrange(0, k as int + 1);
                assert(ce.drop_last() =~= es.subrange(0, k as int));
                assert(ci.drop_last() =~= inc@.subrange(0, k as int));
                assert(ce[k as int] == es[k as int]);
                assert(ci[k as int] == inc@[k as int]);
            }
            if k != not_this && inc[k] && (graph.edges[k].src == iid || graph.edges[k].dst == iid) {
                proof {
                    lemma_other_included_extends(es, inc@, iid, not_this as int, k as int);
                }
                return Some(k);
            }
            k += 1;
        }
        proof {
            assert(es.subrange(0, n as int) =~= es);
            assert(inc@.subrange(0, n as int) =~= inc@);
        }
        None
    }
}

/// When the scan of a prefix found nothing and position k matches, the whole
/// prefix up to k resolves to k; and further extensions keep the answer.
proof fn lemma_other_included_extends(
    es: Seq<EdgeV>,
    inc: Seq<bool>,
    iid: crate::graph::IntersectionID,
    not_this: int,
    k: int,
)
    requires
        es.len() == inc.len(),
        0 <= k < es.len(),
        spec_other_included(es.subrange(0, k), inc.subrange(0, k), iid, not_this) is None,
        k != not_this && inc[k] && (es[k].src == iid || es[k].dst == iid),
    ensures
        spec_other_included(es, inc, iid, not_this) == Some(k),
    decreases es.len(),
{
    if es.len() == k + 1 {
        assert(es.drop_last() =~= es.subrange(0, k));
        assert(inc.drop_last() =~= inc.subrange(0, k));
    } else {
        assert(es.drop_last().subrange(0, k) =~= es.subrange(0, k));
        assert(inc.drop_last().subrange(0, k) =~= inc.subrange(0, k));
        lemma_other_included_extends(es.drop_last(), inc.drop_last(), iid, not_this, k);
    }
}


/// The summed length of a chain of edge indices.
pub open spec fn chain_len_sum(es: Seq<EdgeV>, chain: Seq<int>) -> nat
    decreases chain.len(),
{
    if chain.len() == 0 {
        0
    } else {
        chain_len_sum(es, chain.drop_last()) + (if 0 <= chain.last() < es.len() {
            polyline_len(es[chain.last()].linestring)
        } else {
            0nat
        })
    }
}

/// The mask with a chain's edges turned off.
pub open spec fn mark_suppressed(keep: Seq<bool>, chain: Seq<int>) -> Seq<bool>
    decreases chain.len(),
{
    if chain.len() == 0 {
        keep
    } else {
        let p = mark_suppressed(keep, chain.drop_last());
        if 0 <= chain.last() < p.len() {
            p.update(chain.last(), false)
        } else {
            p
        }
    }
}

/// Dead-end suppression, one seed intersection at a time: from every
/// intersection with exactly one included edge end, walk the chain; a chain
/// whose total length stays under the minimum is turned off whole. The walk
/// always reads the original inclusion mask, so seeds are independent.
pub open spec fn suppressed_after(
    es: Seq<EdgeV>,
    inc: Seq<bool>,
    inters: Seq<IntersectionV>,
) -> Seq<bool>
    decreases inters.len(),
{
    if inters.len() == 0 {
        inc
    } else {
        let prev = suppressed_after(es, inc, inters.drop_last());
        let iid = inters.last().id;
        if spec_degree(es, inc, iid) == 1 {
            match spec_other_included(es, inc, iid, usize::MAX as int) {
                Some(e0) => {
                    let chain = spec_chain_walk(es, inc, e0, iid, es.len());
                    if chain_len_sum(es, chain) < spec_min_deadend_len() {
                        mark_suppressed(prev, chain)
                    } else {
                        prev
                    }
                },
                None => prev,
            }
        } else {
            prev
        }
    }
}

impl Speedwalk {
    /// Walk one dead-end chain from `cur`, entered at intersection `from`.
    fn chain_walk_exec(
        &self,
        graph: &Graph,
        inc: &Vec<bool>,
        cur: usize,
        from: crate::graph::IntersectionID,
        fuel: u64,
    ) -> (r: Vec<usize>)
        requires
            inc@.len() == graph.eview().len(),
            graph.eview().len() < 0x1000_0000,
            cur < graph.eview().len(),
        ensures
            r@.map_values(|x: usize| x as int) == spec_chain_walk(
                graph.eview(),
                inc@,
                cur as int,
                from,
                fuel as nat,
            ),
            forall|j: int| 0 <= j < r@.len() ==> (#[trigger] r@[j]) < graph.eview().len(),
        decreases fuel,
    {
        let ghost es = graph.eview();
        let next = if graph.edges[cur].src == from {
            graph.edges[cur].dst
        } else {
            graph.edges[cur].src
        };
        if fuel == 0 {
            let mut r: Vec<usize> = Vec::new();
            r.push(cur);
            proof {
                assert(r@.map_values(|x: usize| x as int) =~= seq![cur as int]);
            }
            return r;
        }
        let deg = self.degree_exec(graph, inc, next);
        if deg == 2 {
            let other = self.other_included_exec(graph, inc, next, cur);
            match other {
                Some(nxt) => {
                    let rest = self.chain_walk_exec(graph, inc, nxt, next, fuel - 1);
                    let mut r: Vec<usize> = Vec::new();
                    r.push(cur);
                    let n = rest.len();
                    let mut i: usize = 0;
                    while i < n
                        invariant
                            n == rest@.len(),
                            cur < graph.eview().len(),
                            forall|j: int|
                                0 <= j < rest@.len() ==> (#[trigger] rest@[j])
                                    < graph.eview().len(),
                            i <= n,
                            r@.len() == i + 1,
                            r@[0] == cur,
                            forall|j: int| 0 <= j < i ==> r@[j + 1] == rest@[j],
                        decreases n - i,
                    {
                        r.push(rest[i]);
                        i += 1;
                    }
                    proof {
                        assert(r@.map_values(|x: usize| x as int) =~= seq![cur as int]
                            + rest@.map_values(|x: usize| x as int));
                        assert forall|j: int| 0 <= j < r@.len() implies (#[trigger] r@[j])
                            < graph.eview().len() by {
                            if j > 0 {
                                assert(r@[j] == rest@[j - 1]);
                            }
                        }
                    }
                    r
                },
                None => {
                    let mut r: Vec<usize> = Vec::new();
                    r.push(cur);
                    proof {
                        assert(r@.map_values(|x: usize| x as int) =~= seq![cur as int]);
                    }
                    r
                },
            }
        } else {
            let mut r: Vec<usize> = Vec::new();
            r.push(cur);
            proof {
                assert(r@.map_values(|x: usize| x as int) =~= seq![cur as int]);
            }
            r
        }
    }

    /// The inclusion mask after dead-end suppression: every chain that
    /// starts at an intersection with exactly one included edge end and is
    /// shorter in total than the minimum is dropped whole.
    pub fn suppress_dead_ends(&self, graph: &Graph, inc: &Vec<bool>) -> (r: Vec<bool>)
        requires
            inc@.len() == graph.eview().len(),
            graph.eview().len() < 0x10_0000,
            forall|k: int|
                0 <= k < graph.eview().len() ==> crate::geomath::coords_bounded(
                    (#[trigger] graph.eview()[k]).linestring,
                ) && graph.eview()[k].linestring.len() < 0x10_0000,
        ensures
            r@ == suppressed_after(graph.eview(), inc@, graph.iview()),
            r@.len() == inc@.len(),
    {
        let ghost es = graph.eview();
        let ghost iv = graph.iview();
        let n_edges = graph.edges.len();
        let mut keep: Vec<bool> = Vec::new();
        let mut k: usize = 0;
        while k < n_edges
            invariant
                n_edges == inc@.len(),
                n_edges == graph.edges@.len(),
                k <= n_edges,
                keep@.len() == k,
                forall|j: int| 0 <= j < k ==> keep@[j] == inc@[j],
            decreases n_edges - k,
        {
            keep.push(inc[k]);
            k += 1;
        }
        proof {
            assert(keep@ =~= inc@);
            assert(iv.subrange(0, 0) =~= Seq::<IntersectionV>::empty());
            assert(keep@ =~= suppressed_after(es, inc@, iv.subrange(0, 0)));
        }
        let n_int = graph.intersections.len();
        let mut a: usize = 0;
        while a < n_int
            invariant
                n_int == graph.intersections@.len(),
                n_int == iv.len(),
                es == graph.eview(),
                iv == graph.iview(),
                n_edges == inc@.len(),
                n_edges == graph.edges@.len(),
                n_edges == es.len(),
                n_edges < 0x10_0000,
                forall|k2: int|
                    0 <= k2 < es.len() ==> crate::geomath::coords_bounded(
                        (#[trigger] es[k2]).linestring,
                    ) && es[k2].linestring.len() < 0x10_0000,
                a <= n_int,
                keep@ == suppressed_after(es, inc@, iv.subrange(0, a as int)),
                keep@.len() == n_edges,
            decreases n_int - a,
        {
            proof {
                let cur = iv.subrange(0, a as int + 1);
                assert(cur.drop_last() =~= iv.subrange(0, a as int));
                assert(cur.last() == iv[a as int]);
            }
            let iid = graph.intersections[a].id;
            let deg = self.degree_exec(graph, inc, iid);
            if deg == 1 {
                let start = self.other_included_exec(graph, inc, iid, usize::MAX);
                match start {
                    Some(e0) => {
                        let chain = self.chain_walk_exec(graph, inc, e0, iid, n_edges as u64);
                        let ghost chainv = chain@.map_values(|x: usize| x as int);
                        let mut total: u64 = 0;
                        let n_c = chain.len();
                        let mut ci: usize = 0;
                        proof {
                            assert(chainv.subrange(0, 0) =~= Seq::<int>::empty());
                        }
                        while ci < n_c
                            invariant
                                n_c == chain@.len(),
                                chainv == chain@.map_values(|x: usize| x as int),
                                n_edges == graph.edges@.len(),
                                n_edges == es.len(),
                                es == graph.eview(),
                                forall|k2: int|
                                    0 <= k2 < es.len() ==> crate::geomath::coords_bounded(
                                        (#[trigger] es[k2]).linestring,
                                    ) && es[k2].linestring.len() < 0x10_0000,
                                forall|j: int|
                                    0 <= j < chain@.len() ==> (#[trigger] chain@[j]) < es.len(),
                                ci <= n_c,
                                total <= 20000,
                                chain_len_sum(es, chainv.subrange(0, ci as int)) < 10000 ==> total
                                    == chain_len_sum(es, chainv.subrange(0, ci as int)),
                                chain_len_sum(es, chainv.subrange(0, ci as int)) >= 10000 ==> 10000
                                    <= total,
                            decreases n_c - ci,
                        {
                            proof {
                                let cur = chainv.subrange(0, ci as int + 1);
                                assert(cur.drop_last() =~= chainv.subrange(0, ci as int));
                                assert(cur.last() == chainv[ci as int]);
                                assert(chainv[ci as int] == chain@[ci as int] as int);
                                assert(es[chainv[ci as int]] == graph.edges@[chainv[ci as int]]@);
                            }
                            let d = crate::geomath::polyline_length(
                                &graph.edges[chain[ci]].linestring,
                            );
                            if total < 10000 {
                                total = if d >= 10000 {
                                    10000
                                } else {
                                    total + d
                                };
                            }
                            ci += 1;
                        }
                        proof {
                            assert(chainv.subrange(0, n_c as int) =~= chainv);
                        }
                        if total < 10000 {
                            let ghost keep0 = keep@;
                            let mut ci: usize = 0;
                            proof {
                                assert(chainv.subrange(0, 0) =~= Seq::<int>::empty());
                                assert(keep@ =~= mark_suppressed(keep0, chainv.subrange(0, 0)));
                            }
                            while ci < n_c
                                invariant
                                    n_c == chain@.len(),
                                    chainv == chain@.map_values(|x: usize| x as int),
                                    n_edges == keep0.len(),
                                    forall|j: int|
                                        0 <= j < chain@.len() ==> (#[trigger] chain@[j]) < n_edges,
                                    ci <= n_c,
                                    keep@.len() == n_edges,
                                    keep@ == mark_suppressed(keep0, chainv.subrange(0, ci as int)),
                                decreases n_c - ci,
                            {
                                proof {
                                    let cur = chainv.subrange(0, ci as int + 1);
                                    assert(cur.drop_last() =~= chainv.subrange(0, ci as int));
                                    assert(cur.last() == chainv[ci as int]);
                                    assert(chainv[ci as int] == chain@[ci as int] as int);
                                }
                                keep.set(chain[ci], false);
                                ci += 1;
                            }
                            proof {
                                assert(chainv.subrange(0, n_c as int) =~= chainv);
                                assert(keep@ =~= suppressed_after(es, inc@, iv.subrange(0, a as int + 1)));
                            }
                        } else {
                            proof {
                                assert(keep@ =~= suppressed_after(es, inc@, iv.subrange(0, a as int + 1)));
                            }
                        }
                    },
                    None => {
                        proof {
                            assert(keep@ =~= suppressed_after(es, inc@, iv.subrange(0, a as int + 1)));
                        }
                    },
                }
            } else {
                proof {
                    assert(keep@ =~= suppressed_after(es, inc@, iv.subrange(0, a as int + 1)));
                }
            }
            a += 1;
        }
        proof {
            assert(iv.subrange(0, n_int as int) =~= iv);
        }
        keep
    }
}

/// Part of this crate's view of petgraph's graph type, so that an undirected
/// graph of intersection identifiers can be built and its connected
/// components asked for.
#[verifier::external_type_specification]
#[verifier::external_body]
#[verifier::reject_recursive_types(N)]
#[verifier::reject_recursive_types(E)]
#[verifier::reject_recursive_types(Ty)]
#[verifier::reject_recursive_types(S)]
pub struct ExGraphMap<N, E, Ty, S: std::hash::BuildHasher>(GraphMap<N, E, Ty, S>);

#[verifier::external_type_specification]
#[verifier::external_body]
pub struct ExUndirected(Undirected);

/// What edges an undirected petgraph graph holds: the pairs for which
/// `contains_edge` answers true (symmetric in its ends).
pub uninterp spec fn graph_edge_pairs(g: GraphMap<u64, (), Undirected, RandomState>) -> Set<
    (u64, u64),
>;

/// What nodes an undirected petgraph graph holds.
pub uninterp spec fn graph_node_set(g: GraphMap<u64, (), Undirected, RandomState>) -> Set<u64>;

/// A step-by-step path through a symmetric edge set.
pub open spec fn is_link_path(s: Set<(u64, u64)>, p: Seq<u64>) -> bool {
    p.len() >= 1 && forall|k: int| 0 <= k < p.len() - 1 ==> s.contains((#[trigger] p[k], p[k + 1]))
}

/// Two nodes joined by some path.
pub open spec fn linked(s: Set<(u64, u64)>, a: u64, b: u64) -> bool {
    exists|p: Seq<u64>| is_link_path(s, p) && p.first() == a && p.last() == b
}

/// Relies on petgraph's GraphMap::new: a new graph has no nodes and no
/// edges.
#[verifier::external_body]
fn new_graphmap() -> (g: GraphMap<u64, (), Undirected, RandomState>)
    ensures
        graph_edge_pairs(g) == Set::<(u64, u64)>::empty(),
        graph_node_set(g) == Set::<u64>::empty(),
{
    GraphMap::new()
}

/// Relies on petgraph's GraphMap::add_edge: adds the edge, in both
/// directions of an undirected graph, and its two endpoints as nodes.
#[verifier::external_body]
fn add_graph_edge(g: &mut GraphMap<u64, (), Undirected, RandomState>, a: u64, b: u64)
    ensures
        graph_edge_pairs(*final(g)) == graph_edge_pairs(*old(g)).insert((a, b)).insert((b, a)),
        graph_node_set(*final(g)) == graph_node_set(*old(g)).insert(a).insert(b),
{
    g.add_edge(a, b, ());
}

/// Relies on petgraph's kosaraju_scc, which documents that for an undirected
/// graph the strongly connected components are simply the connected
/// components: every node of the graph appears in exactly one group, nodes
/// in one group are mutually linked, and nodes of different groups are not.
#[verifier::external_body]
fn connected_node_groups(g: &GraphMap<u64, (), Undirected, RandomState>) -> (r: Vec<Vec<u64>>)
    ensures
        forall|i: int, j: int|
            0 <= i < r@.len() && 0 <= j < (#[trigger] r@[i])@.len() ==> graph_node_set(
                *g,
            ).contains(#[trigger] r@[i]@[j]),
        forall|n: u64|
            graph_node_set(*g).contains(n) ==> exists|i: int, j: int|
                0 <= i < r@.len() && 0 <= j < r@[i]@.len() && #[trigger] r@[i]@[j] == n,
        forall|i: int, j1: int, j2: int|
            0 <= i < r@.len() && 0 <= j1 < j2 < r@[i]@.len() ==> #[trigger] r@[i]@[j1]
                != #[trigger] r@[i]@[j2],
        forall|i1: int, i2: int, j1: int, j2: int|
            0 <= i1 < i2 < r@.len() && 0 <= j1 < r@[i1]@.len() && 0 <= j2 < r@[i2]@.len()
                ==> #[trigger] r@[i1]@[j1] != #[trigger] r@[i2]@[j2],
        forall|i: int, j1: int, j2: int|
            0 <= i < r@.len() && 0 <= j1 < r@[i]@.len() && 0 <= j2 < r@[i]@.len() ==> linked(
                graph_edge_pairs(*g),
                #[trigger] r@[i]@[j1],
                #[trigger] r@[i]@[j2],
            ),
        forall|i1: int, i2: int, j1: int, j2: int|
            0 <= i1 < r@.len() && 0 <= i2 < r@.len() && i1 != i2 && 0 <= j1 < r@[i1]@.len() && 0
                <= j2 < r@[i2]@.len() ==> !linked(
                graph_edge_pairs(*g),
                #[trigger] r@[i1]@[j1],
                #[trigger] r@[i2]@[j2],
            ),
{
    petgraph::algo::kosaraju_scc(g)
}

/// The symmetric pairs of the kept edges' endpoints, over the first n
/// edges.
pub open spec fn kept_pairs_upto(es: Seq<EdgeV>, keep: Seq<bool>, n: int) -> Set<(u64, u64)>
    decreases n,
{
    if n <= 0 || es.len() != keep.len() {
        Set::empty()
    } else {
        let p = kept_pairs_upto(es, keep, n - 1);
        if 0 <= n - 1 < es.len() && keep[n - 1] {
            p.insert((es[n - 1].src.0, es[n - 1].dst.0)).insert((es[n - 1].dst.0, es[n - 1].src.0))
        } else {
            p
        }
    }
}

pub open spec fn kept_pairs(es: Seq<EdgeV>, keep: Seq<bool>) -> Set<(u64, u64)> {
    kept_pairs_upto(es, keep, es.len() as int)
}

/// The endpoints of the kept edges, over the first n edges.
pub open spec fn kept_nodes_upto(es: Seq<EdgeV>, keep: Seq<bool>, n: int) -> Set<u64>
    decreases n,
{
    if n <= 0 || es.len() != keep.len() {
        Set::empty()
    } else {
        let p = kept_nodes_upto(es, keep, n - 1);
        if 0 <= n - 1 < es.len() && keep[n - 1] {
            p.insert(es[n - 1].src.0).insert(es[n - 1].dst.0)
        } else {
            p
        }
    }
}

pub open spec fn kept_nodes(es: Seq<EdgeV>, keep: Seq<bool>) -> Set<u64> {
    kept_nodes_upto(es, keep, es.len() as int)
}

/// The connected-components property of a grouping: the groups cover the
/// node set exactly once, nodes in one group are mutually linked, and nodes
/// of different groups are not.
pub open spec fn groups_ok(kp: Set<(u64, u64)>, kn: Set<u64>, gs: Seq<Seq<u64>>) -> bool {
    &&& forall|i: int, j: int|
        0 <= i < gs.len() && 0 <= j < gs[i].len() ==> kn.contains(#[trigger] gs[i][j])
    &&& forall|n: u64|
        kn.contains(n) ==> exists|i: int, j: int|
            0 <= i < gs.len() && 0 <= j < gs[i].len() && #[trigger] gs[i][j] == n
    &&& forall|i: int, j1: int, j2: int|
        0 <= i < gs.len() && 0 <= j1 < j2 < gs[i].len() ==> #[trigger] gs[i][j1]
            != #[trigger] gs[i][j2]
    &&& forall|i1: int, i2: int, j1: int, j2: int|
        0 <= i1 < i2 < gs.len() && 0 <= j1 < gs[i1].len() && 0 <= j2 < gs[i2].len()
            ==> #[trigger] gs[i1][j1] != #[trigger] gs[i2][j2]
    &&& forall|i: int, j1: int, j2: int|
        0 <= i < gs.len() && 0 <= j1 < gs[i].len() && 0 <= j2 < gs[i].len() ==> linked(
            kp,
            #[trigger] gs[i][j1],
            #[trigger] gs[i][j2],
        )
    &&& forall|i1: int, i2: int, j1: int, j2: int|
        0 <= i1 < gs.len() && 0 <= i2 < gs.len() && i1 != i2 && 0 <= j1 < gs[i1].len() && 0 <= j2
            < gs[i2].len() ==> !linked(kp, #[trigger] gs[i1][j1], #[trigger] gs[i2][j2])
}

impl Speedwalk {
    /// Group the intersections of the kept edges into their connected
    /// components: the groups cover exactly the kept edges' endpoints, are
    /// mutually linked within and unlinked across. The grouping comes from
    /// the graph library; which edges feed it is exactly the kept mask.
    pub fn component_groups(&self, graph: &Graph, keep: &Vec<bool>) -> (r: Vec<Vec<u64>>)
        requires
            keep@.len() == graph.eview().len(),
        ensures
            groups_ok(
                kept_pairs(graph.eview(), keep@),
                kept_nodes(graph.eview(), keep@),
                r@.map_values(|g: Vec<u64>| g@),
            ),
    {
        let ghost es = graph.eview();
        let mut g = new_graphmap();
        let n = graph.edges.len();
        let mut k: usize = 0;
        while k < n
            invariant
                n == graph.edges@.len(),
                n == keep@.len(),
                es == graph.eview(),
                k <= n,
                graph_edge_pairs(g) == kept_pairs_upto(es, keep@, k as int),
                graph_node_set(g) == kept_nodes_upto(es, keep@, k as int),
            decreases n - k,
        {
            proof {
                assert(es[k as int] == graph.edges@[k as int]@);
            }
            if keep[k] {
                add_graph_edge(&mut g, graph.edges[k].src.0, graph.edges[k].dst.0);
            }
            k += 1;
        }
        let groups = connected_node_groups(&g);
        proof {
            let gv = groups@.map_values(|x: Vec<u64>| x@);
            assert forall|i: int, j: int|
                0 <= i < gv.len() && 0 <= j < gv[i].len() implies kept_nodes(es, keep@).contains(
                #[trigger] gv[i][j],
            ) by {
                assert(gv[i][j] == groups@[i]@[j]);
            }
            assert forall|n2: u64| kept_nodes(es, keep@).contains(n2) implies exists|
                i: int,
                j: int,
            |
                0 <= i < gv.len() && 0 <= j < gv[i].len() && #[trigger] gv[i][j] == n2 by {
                let (i, j) = choose|i: int, j: int|
                    0 <= i < groups@.len() && 0 <= j < groups@[i]@.len() && #[trigger] groups@[
                        i]@[j] == n2;
                assert(gv[i][j] == n2);
            }
        }
        groups
    }

    /// One report entry per group: the sorted ways of the group's kept
    /// edges, with their total length, in group order.
    fn components_from_groups(&self, graph: &Graph, keep: &Vec<bool>, groups: &Vec<Vec<u64>>) -> (r:
        Vec<(Vec<i64>, u64)>)
        requires
            keep@.len() == graph.eview().len(),
            forall|i: int|
                0 <= i < self.derived_ways@.len() ==> crate::geomath::coords_bounded(
                    (#[trigger] self.derived_ways@[i]).1.linestring,
                ) && self.derived_ways@[i].1.linestring.len() < 0x10_0000,
        ensures
            components_report_ok(
                self.derived_ways@,
                graph.eview(),
                keep@,
                groups@.map_values(|g: Vec<u64>| g@),
                r@,
            ),
    {
        let ghost es = graph.eview();
        let ghost gvs = groups@.map_values(|g: Vec<u64>| g@);
        let mut r: Vec<(Vec<i64>, u64)> = Vec::new();
        let n_g = groups.len();
        let mut gi: usize = 0;
        while gi < n_g
            invariant
                n_g == gvs.len(),
                gvs == groups@.map_values(|g: Vec<u64>| g@),
                es == graph.eview(),
                keep@.len() == graph.eview().len(),
                keep@.len() == graph.edges@.len(),
                forall|i: int|
                    0 <= i < self.derived_ways@.len() ==> crate::geomath::coords_bounded(
                        (#[trigger] self.derived_ways@[i]).1.linestring,
                    ) && self.derived_ways@[i].1.linestring.len() < 0x10_0000,
                gi <= n_g,
                r@.len() == gi,
                forall|i: int|
                    0 <= i < gi ==> component_entry(
                        self.derived_ways@,
                        es,
                        keep@,
                        #[trigger] gvs[i],
                        #[trigger] r@[i],
                    ),
            decreases n_g - gi,
        {
            let mut way_ids: Vec<i64> = Vec::new();
            let ghost group = gvs[gi as int];
            let n_nodes = groups[gi].len();
            let mut ni: usize = 0;
            proof {
                assert(group.subrange(0, 0) =~= Seq::<u64>::empty());
                assert(way_ids@ =~= ways_of_group(es, keep@, group.subrange(0, 0)));
            }
            while ni < n_nodes
                invariant
                    gi < gvs.len(),
                    gvs == groups@.map_values(|g: Vec<u64>| g@),
                    group == gvs[gi as int],
                    n_nodes == group.len(),
                    es == graph.eview(),
                    keep@.len() == graph.edges@.len(),
                    keep@.len() == es.len(),
                    ni <= n_nodes,
                    way_ids@ == ways_of_group(es, keep@, group.subrange(0, ni as int)),
                decreases n_nodes - ni,
            {
                proof {
                    let cur = group.subrange(0, ni as int + 1);
                    assert(cur.drop_last() =~= group.subrange(0, ni as int));
                    assert(cur.last() == group[ni as int]);
                    assert(group[ni as int] == groups@[gi as int]@[ni as int]);
                }
                let node = groups[gi][ni];
                let ghost base = way_ids@;
                let n_e = graph.edges.len();
                let mut k: usize = 0;
                proof {
                    assert(es.subrange(0, 0) =~= Seq::<EdgeV>::empty());
                    assert(way_ids@ =~= ways_for_node(
                        es.subrange(0, 0),
                        keep@.subrange(0, 0),
                        base,
                        node,
                    ));
                }
                while k < n_e
                    invariant
                        n_e == graph.edges@.len(),
                        n_e == es.len(),
                        es == graph.eview(),
                        keep@.len() == n_e,
                        k <= n_e,
                        way_ids@ == ways_for_node(
                            es.subrange(0, k as int),
                            keep@.subrange(0, k as int),
                            base,
                            node,
                        ),
                    decreases n_e - k,
                {
                    proof {
                        let ce = es.subrange(0, k as int + 1);
                        let ck = keep@.subrange(0, k as int + 1);
                        assert(ce.drop_last() =~= es.subrange(0, k as int));
                        assert(ck.drop_last() =~= keep@.subrange(0, k as int));
                        assert(ce.last() == es[k as int]);
                        assert(ck.last() == keep@[k as int]);
                        assert(es[k as int] == graph.edges@[k as int]@);
                    }
                    if keep[k] && (graph.edges[k].src.0 == node || graph.edges[k].dst.0 == node) {
                        crate::osc::ins_id_exec(&mut way_ids, graph.edges[k].osm_way);
                    }
                    k += 1;
                }
                proof {
                    assert(es.subrange(0, n_e as int) =~= es);
                    assert(keep@.subrange(0, n_e as int) =~= keep@);
                }
                ni += 1;
            }
            proof {
                assert(group.subrange(0, n_nodes as int) =~= group);
            }
            let total = self.ways_length_exec(&way_ids);
            r.push((way_ids, total));
            gi += 1;
        }
        r
    }

    /// The connected components of the filtered network, dead-end chains
    /// suppressed when the filter asks: per component, the sorted ways of
    /// its kept edges and their total length, longest first. The grouping
    /// into components is the graph library's; everything around it —
    /// which edges are kept, which ways each group lists, each length, the
    /// order — is exact.
    pub fn find_connected_components(&self, graph: &Graph, filter: &NetworkFilter) -> (r: Vec<
        (Vec<i64>, u64),
    >)
        requires
            forall|i: int|
                0 <= i < self.derived_ways@.len() ==> crate::geomath::coords_bounded(
                    (#[trigger] self.derived_ways@[i]).1.linestring,
                ) && self.derived_ways@[i].1.linestring.len() < 0x10_0000,
            graph.eview().len() < 0x10_0000,
            forall|k: int|
                0 <= k < graph.eview().len() ==> crate::geomath::coords_bounded(
                    (#[trigger] graph.eview()[k]).linestring,
                ) && graph.eview()[k].linestring.len() < 0x10_0000,
        ensures
            ({
                let keep = network_keep_mask(
                    self.derived_ways@,
                    graph.eview(),
                    graph.iview(),
                    *filter,
                );
                exists|gs: Seq<Seq<u64>>, base: Seq<(Vec<i64>, u64)>|
                    {
                        &&& #[trigger] groups_ok(
                            kept_pairs(graph.eview(), keep),
                            kept_nodes(graph.eview(), keep),
                            gs,
                        )
                        &&& #[trigger] components_report_ok(
                            self.derived_ways@,
                            graph.eview(),
                            keep,
                            gs,
                            base,
                        )
                        &&& sorted_rearrangement(base, r@)
                    }
            }),
    {
        let keep = self.network_keep_exec(graph, filter);
        let groups = self.component_groups(graph, &keep);
        let base = self.components_from_groups(graph, &keep, &groups);
        let ghost bview = base@;
        let ghost gs = groups@.map_values(|g: Vec<u64>| g@);
        let r = sort_components(base);
        proof {
            let keepm = network_keep_mask(
                self.derived_ways@,
                graph.eview(),
                graph.iview(),
                *filter,
            );
            assert(groups_ok(
                kept_pairs(graph.eview(), keepm),
                kept_nodes(graph.eview(), keepm),
                gs,
            ) && components_report_ok(self.derived_ways@, graph.eview(), keepm, gs, bview)
                && sorted_rearrangement(bview, r@));
        }
        r
    }

    /// The kept-edge mask a filter yields: inclusion by kind, then dead-end
    /// chain suppression when asked.
    pub fn network_keep_exec(&self, graph: &Graph, filter: &NetworkFilter) -> (r: Vec<bool>)
        requires
            graph.eview().len() < 0x10_0000,
            forall|k: int|
                0 <= k < graph.eview().len() ==> crate::geomath::coords_bounded(
                    (#[trigger] graph.eview()[k]).linestring,
                ) && graph.eview()[k].linestring.len() < 0x10_0000,
        ensures
            r@ == network_keep_mask(self.derived_ways@, graph.eview(), graph.iview(), *filter),
            r@.len() == graph.eview().len(),
    {
        let inc = self.inclusion_mask(filter, graph);
        proof {
            assert(inc@ =~= inclusion_of(self.derived_ways@, filter.selection, graph.eview()));
        }
        if filter.ignore_deadends {
            self.suppress_dead_ends(graph, &inc)
        } else {
            inc
        }
    }
}

/// The kind-inclusion mask of all edges.
pub open spec fn inclusion_of(
    ways: Seq<(i64, WayView)>,
    selection: NetworkFilterType,
    es: Seq<EdgeV>,
) -> Seq<bool> {
    Seq::new(es.len(), |k: int| spec_edge_included(ways, selection, es[k]))
}

/// The mask a network filter keeps: kind inclusion, then dead-end chain
/// suppression when the filter asks for it.
pub open spec fn network_keep_mask(
    ways: Seq<(i64, WayView)>,
    es: Seq<EdgeV>,
    inters: Seq<IntersectionV>,
    filter: NetworkFilter,
) -> Seq<bool> {
    let inc = inclusion_of(ways, filter.selection, es);
    if filter.ignore_deadends {
        suppressed_after(es, inc, inters)
    } else {
        inc
    }
}

/// The sorted ways of the kept edges at one node, folded onto an
/// accumulator.
pub open spec fn ways_for_node(
    es: Seq<EdgeV>,
    keep: Seq<bool>,
    acc: Seq<i64>,
    node: u64,
) -> Seq<i64>
    decreases es.len(),
{
    if es.len() == 0 || es.len() != keep.len() {
        acc
    } else {
        let p = ways_for_node(es.drop_last(), keep.drop_last(), acc, node);
        if keep.last() && (es.last().src.0 == node || es.last().dst.0 == node) {
            crate::osc::ins_id(p, es.last().osm_way)
        } else {
            p
        }
    }
}

/// The sorted ways of a group's kept edges.
pub open spec fn ways_of_group(es: Seq<EdgeV>, keep: Seq<bool>, group: Seq<u64>) -> Seq<i64>
    decreases group.len(),
{
    if group.len() == 0 {
        Seq::empty()
    } else {
        ways_for_node(es, keep, ways_of_group(es, keep, group.drop_last()), group.last())
    }
}

/// One report entry belongs to one group: exactly the group's sorted ways,
/// with their exact (capped) total length.
pub open spec fn component_entry(
    ways: Seq<(i64, WayView)>,
    es: Seq<EdgeV>,
    keep: Seq<bool>,
    group: Seq<u64>,
    entry: (Vec<i64>, u64),
) -> bool {
    entry.0@ == ways_of_group(es, keep, group) && entry.1 == capped(ways_len_sum(ways, entry.0@))
}

/// The whole report matches the grouping: entry i is exactly group i's.
pub open spec fn components_report_ok(
    ways: Seq<(i64, WayView)>,
    es: Seq<EdgeV>,
    keep: Seq<bool>,
    gs: Seq<Seq<u64>>,
    r: Seq<(Vec<i64>, u64)>,
) -> bool {
    &&& r.len() == gs.len()
    &&& forall|i: int|
        0 <= i < gs.len() ==> component_entry(ways, es, keep, #[trigger] gs[i], #[trigger] r[i])
}

/// Rearrange a report into non-increasing length order by insertion.
fn sort_components(base: Vec<(Vec<i64>, u64)>) -> (r: Vec<(Vec<i64>, u64)>)
    ensures
        sorted_rearrangement(base@, r@),
{
    let ghost bv = base@;
    let mut work = base;
    let mut out: Vec<(Vec<i64>, u64)> = Vec::new();
    proof {
        broadcast use vstd::seq_lib::group_to_multiset_ensures;

        assert(out@.to_multiset() =~= Multiset::<(Vec<i64>, u64)>::empty());
        assert(out@.to_multiset().add(work@.to_multiset()) =~= bv.to_multiset());
    }
    while work.len() > 0
        invariant
            out@.to_multiset().add(work@.to_multiset()) == bv.to_multiset(),
            forall|j1: int, j2: int|
                0 <= j1 < j2 < out@.len() ==> (#[trigger] out@[j1]).1 >= (#[trigger] out@[j2]).1,
        decreases work@.len(),
    {
        let ghost work0 = work@;
        let e = match work.pop() {
            Some(e) => e,
            None => {
                proof {
                    assert(false);
                }
                return out;
            },
        };
        proof {
            broadcast use vstd::seq_lib::group_to_multiset_ensures;

            assert(work@.push(e) =~= work0);
            assert(work0.to_multiset() =~= work@.to_multiset().insert(e));
        }
        let total = e.1;
        let rn = out.len();
        let mut p: usize = 0;
        while p < rn && out[p].1 >= total
            invariant
                rn == out@.len(),
                p <= rn,
                forall|k: int| 0 <= k < p ==> (#[trigger] out@[k]).1 >= total,
            decreases rn - p,
        {
            p += 1;
        }
        let ghost rpre = out@;
        let ghost fp = p as int;
        out.insert(p, e);
        proof {
            broadcast use vstd::seq_lib::group_to_multiset_ensures;

            let sub1 = rpre.subrange(0, fp);
            let sub2 = rpre.subrange(fp, rpre.len() as int);
            assert(rpre =~= sub1 + sub2);
            assert(out@ =~= sub1 + (seq![e] + sub2));
            vstd::seq_lib::lemma_multiset_commutative(sub1, sub2);
            vstd::seq_lib::lemma_multiset_commutative(sub1, seq![e] + sub2);
            vstd::seq_lib::lemma_multiset_commutative(seq![e], sub2);
            assert(seq![e] =~= Seq::<(Vec<i64>, u64)>::empty().push(e));
            assert(seq![e].to_multiset() =~= Multiset::<(Vec<i64>, u64)>::empty().insert(e));
            assert(out@.to_multiset() =~= rpre.to_multiset().insert(e));
            assert(out@.to_multiset().add(work@.to_multiset()) =~= bv.to_multiset());
            assert(out@[fp] == e);
            assert forall|j1: int, j2: int|
                0 <= j1 < j2 < out@.len() implies (#[trigger] out@[j1]).1 >= (
            #[trigger] out@[j2]).1 by {
                if j2 < fp {
                    assert(out@[j1] == rpre[j1]);
                    assert(out@[j2] == rpre[j2]);
                } else if j2 == fp {
                    assert(out@[j1] == rpre[j1]);
                    assert(rpre[j1].1 >= total);
                } else {
                    assert(out@[j2] == rpre[j2 - 1]);
                    assert(fp <= j2 - 1 < rpre.len());
                    assert(rpre[j2 - 1].1 <= total) by {
                        assert(rpre[fp].1 < total);
                        if j2 - 1 > fp {
                            assert(rpre[fp].1 >= rpre[j2 - 1].1);
                        }
                    }
                    if j1 < fp {
                        assert(out@[j1] == rpre[j1]);
                        assert(rpre[j1].1 >= total);
                    } else if j1 > fp {
                        assert(out@[j1] == rpre[j1 - 1]);
                        assert(rpre[fp].1 >= rpre[j1 - 1].1 || fp == j1 - 1);
                        assert(rpre[j1 - 1].1 >= rpre[j2 - 1].1 || j1 - 1 == j2 - 1);
                    }
                }
            }
        }
    }
    proof {
        broadcast use vstd::seq_lib::group_to_multiset_ensures;

        assert(work@.to_multiset() =~= Multiset::<(Vec<i64>, u64)>::empty());
        assert(out@.to_multiset() =~= base@.to_multiset());
    }
    out
}

/// One report is the other rearranged into non-increasing length order.
pub open spec fn sorted_rearrangement(base: Seq<(Vec<i64>, u64)>, r: Seq<(Vec<i64>, u64)>) -> bool {
    &&& r.to_multiset() == base.to_multiset()
    &&& forall|j1: int, j2: int| 0 <= j1 < j2 < r.len() ==> (#[trigger] r[j1]).1 >= (#[trigger] r[j2]).1
}

/// Identifiers strictly increase.
pub open spec fn sorted_ids(s: Seq<i64>) -> bool {
    forall|i: int, j: int| 0 <= i < j < s.len() ==> s[i] < s[j]
}

/// Insert an identifier into a sorted list, unless present.
pub fn insert_sorted_unique(v: &mut Vec<i64>, x: i64)
    requires
        sorted_ids(old(v)@),
    ensures
        sorted_ids(final(v)@),
        final(v)@.contains(x),
        forall|y: i64| #[trigger] final(v)@.contains(y) <==> (old(v)@.contains(y) || y == x),
        final(v)@.len() <= old(v)@.len() + 1,
{
    let ghost orig = v@;
    let n = v.len();
    let mut i: usize = 0;
    while i < n
        invariant
            v@ == orig,
            orig == old(v)@,
            sorted_ids(orig),
            n == orig.len(),
            i <= n,
            forall|j: int| 0 <= j < i ==> orig[j] < x,
        decreases n - i,
    {
        if v[i] == x {
            proof {
                assert(orig.contains(x)) by {
                    assert(orig[i as int] == x);
                }
            }
            return;
        }
        if v[i] > x {
            let ghost fi = i as int;
            v.insert(i, x);
            proof {
                assert(v@ =~= orig.insert(fi, x));
                let u = v@;
                assert forall|a: int, b: int| 0 <= a < b < u.len() implies u[a] < u[b] by {
                    let a0 = if a < fi {
                        a
                    } else {
                        a - 1
                    };
                    let b0 = if b <= fi {
                        b
                    } else {
                        b - 1
                    };
                    if a == fi {
                        assert(u[a] == x);
                        assert(u[b] == orig[b - 1]);
                        assert(x <= orig[fi]);
                        if b - 1 > fi {
                            assert(orig[fi] < orig[b - 1]);
                        }
                    } else if b == fi {
                        assert(u[b] == x);
                        assert(u[a] == orig[a]);
                        assert(orig[a] < x);
                    } else {
                        assert(u[a] == orig[a0]);
                        assert(u[b] == orig[b0]);
                    }
                }
                assert(u[fi] == x);
                assert(u.contains(x));
                assert forall|y: i64| #[trigger] u.contains(y) implies (orig.contains(y) || y
                    == x) by {
                    let k = choose|k: int| 0 <= k < u.len() && u[k] == y;
                    if k < fi {
                        assert(orig[k] == y);
                    } else if k > fi {
                        assert(orig[k - 1] == y);
                    }
                }
                assert forall|y: i64| (orig.contains(y) || y == x) implies #[trigger] u.contains(
                    y,
                ) by {
                    if orig.contains(y) {
                        let k = choose|k: int| 0 <= k < orig.len() && orig[k] == y;
                        if k < fi {
                            assert(u[k] == y);
                        } else {
                            assert(u[k + 1] == y);
                        }
                    } else {
                        assert(u[fi] == y);
                    }
                }
            }
            return;
        }
        i += 1;
    }
    v.push(x);
    proof {
        let u = v@;
        assert(u =~= orig.push(x));
        assert forall|a: int, b: int| 0 <= a < b < u.len() implies u[a] < u[b] by {
            if b == orig.len() {
                assert(u[a] == orig[a]);
            } else {
                assert(orig[a] < orig[b]);
            }
        }
        assert(u[orig.len() as int] == x);
        assert(u.contains(x));
        assert forall|y: i64| #[trigger] u.contains(y) implies (orig.contains(y) || y == x) by {
            let k = choose|k: int| 0 <= k < u.len() && u[k] == y;
            if k < orig.len() {
                assert(orig[k] == y);
            }
        }
        assert forall|y: i64| (orig.contains(y) || y == x) implies #[trigger] u.contains(y) by {
            if orig.contains(y) {
                let k = choose|k: int| 0 <= k < orig.len() && orig[k] == y;
                assert(u[k] == y);
            } else {
                assert(u[orig.len() as int] == y);
            }
        }
    }
}

/// The summed length of the named ways' polylines.
pub open spec fn ways_len_sum(ways: Seq<(i64, WayView)>, ids: Seq<i64>) -> nat
    decreases ids.len(),
{
    if ids.len() == 0 {
        0
    } else {
        ways_len_sum(ways, ids.drop_last()) + match id_find(ways, ids.last()) {
            Some(w) => polyline_len(w.linestring),
            None => 0,
        }
    }
}

/// A sum capped at the largest representable value.
pub open spec fn capped(n: nat) -> nat {
    if n > 0xffff_ffff_ffff_ffff {
        0xffff_ffff_ffff_ffff
    } else {
        n
    }
}

impl Speedwalk {
    /// The summed length of the named ways, capped at the largest
    /// representable value.
    fn ways_length_exec(&self, ids: &Vec<i64>) -> (r: u64)
        requires
            forall|i: int|
                0 <= i < self.derived_ways@.len() ==> crate::geomath::coords_bounded(
                    (#[trigger] self.derived_ways@[i]).1.linestring,
                ) && self.derived_ways@[i].1.linestring.len() < 0x10_0000,
        ensures
            r == capped(ways_len_sum(self.derived_ways@, ids@)),
    {
        let ghost ways = self.derived_ways@;
        let n = ids.len();
        let mut total: u64 = 0;
        let mut i: usize = 0;
        proof {
            assert(ids@.subrange(0, 0) =~= Seq::<i64>::empty());
        }
        while i < n
            invariant
                n == ids@.len(),
                self.derived_ways@ == ways,
                forall|k: int|
                    0 <= k < ways.len() ==> crate::geomath::coords_bounded(
                        (#[trigger] ways[k]).1.linestring,
                    ) && ways[k].1.linestring.len() < 0x10_0000,
                i <= n,
                total == capped(ways_len_sum(ways, ids@.subrange(0, i as int))),
            decreases n - i,
        {
            proof {
                let cur = ids@.subrange(0, i as int + 1);
                assert(cur.drop_last() =~= ids@.subrange(0, i as int));
                assert(cur.last() == ids@[i as int]);
            }
            let found = self.derived_ways.get(ids[i]);
            match found {
                Some(w) => {
                    proof {
                        crate::edits::lemma_id_find_pos(ways, ids@[i as int]);
                        let j = choose|j: int|
                            0 <= j < ways.len() && ways[j].0 == ids@[i as int] && ways[j].1 == id_find(
                                ways,
                                ids@[i as int],
                            ).unwrap();
                        assert(crate::geomath::coords_bounded(ways[j].1.linestring));
                    }
                    let d = crate::geomath::polyline_length(&w.linestring);
                    if d > u64::MAX - total {
                        total = u64::MAX;
                    } else {
                        total = total + d;
                    }
                },
                None => {},
            }
            i += 1;
        }
        proof {
            assert(ids@.subrange(0, n as int) =~= ids@);
        }
        total
    }

}

/// The summed length of a group's kept edges (an edge belongs to the group
/// of its endpoints).
pub open spec fn group_kept_len_upto(es: Seq<EdgeV>, keep: Seq<bool>, group: Seq<u64>, n: int) -> nat
    decreases n,
{
    if n <= 0 || es.len() != keep.len() {
        0
    } else {
        group_kept_len_upto(es, keep, group, n - 1) + (if 0 <= n - 1 < es.len() && keep[n - 1]
            && group.contains(es[n - 1].src.0) {
            polyline_len(es[n - 1].linestring)
        } else {
            0nat
        })
    }
}

pub open spec fn group_kept_len(es: Seq<EdgeV>, keep: Seq<bool>, group: Seq<u64>) -> nat {
    group_kept_len_upto(es, keep, group, es.len() as int)
}

/// The kept mask after suppressing every component whose kept edges total
/// less than the minimum component length.
pub open spec fn short_suppressed(es: Seq<EdgeV>, keep: Seq<bool>, gs: Seq<Seq<u64>>) -> Seq<bool> {
    Seq::new(
        keep.len(),
        |k: int| keep[k] && !exists|i: int|
            0 <= i < gs.len() && (#[trigger] gs[i]).contains(es[k].src.0) && group_kept_len(
                es,
                keep,
                gs[i],
            ) < spec_min_component_len(),
    )
}

impl Speedwalk {
    /// Turn off every kept edge whose component's kept edges total less
    /// than the minimum component length.
    fn suppress_short_components(&self, graph: &Graph, keep: &Vec<bool>, groups: &Vec<Vec<u64>>) -> (r:
        Vec<bool>)
        requires
            keep@.len() == graph.eview().len(),
            forall|k: int|
                0 <= k < graph.eview().len() ==> crate::geomath::coords_bounded(
                    (#[trigger] graph.eview()[k]).linestring,
                ) && graph.eview()[k].linestring.len() < 0x10_0000,
        ensures
            r@ == short_suppressed(graph.eview(), keep@, groups@.map_values(|g: Vec<u64>| g@)),
    {
        let ghost es = graph.eview();
        let ghost gvs = groups@.map_values(|g: Vec<u64>| g@);
        let n_edges = graph.edges.len();
        let mut r: Vec<bool> = Vec::new();
        let mut k: usize = 0;
        while k < n_edges
            invariant
                n_edges == keep@.len(),
                n_edges == graph.edges@.len(),
                k <= n_edges,
                r@.len() == k,
                forall|j: int| 0 <= j < k ==> r@[j] == keep@[j],
            decreases n_edges - k,
        {
            r.push(keep[k]);
            k += 1;
        }
        let n_g = groups.len();
        let mut gi: usize = 0;
        while gi < n_g
            invariant
                n_g == gvs.len(),
                gvs == groups@.map_values(|g: Vec<u64>| g@),
                es == graph.eview(),
                n_edges == keep@.len(),
                n_edges == graph.edges@.len(),
                n_edges == es.len(),
                forall|k2: int|
                    0 <= k2 < es.len() ==> crate::geomath::coords_bounded(
                        (#[trigger] es[k2]).linestring,
                    ) && es[k2].linestring.len() < 0x10_0000,
                gi <= n_g,
                r@.len() == n_edges,
                forall|j: int|
                    0 <= j < n_edges ==> r@[j] == (keep@[j] && !exists|i: int|
                        0 <= i < gi && (#[trigger] gvs[i]).contains(es[j].src.0)
                            && group_kept_len(es, keep@, gvs[i]) < spec_min_component_len()),
            decreases n_g - gi,
        {
            let ghost group = gvs[gi as int];
            // The group's kept length, compared against the minimum.
            let mut total: u64 = 0;
            let mut k: usize = 0;
            proof {
                assert(group_kept_len_upto(es, keep@, group, 0) == 0);
            }
            while k < n_edges
                invariant
                    gi < gvs.len(),
                    gvs == groups@.map_values(|g: Vec<u64>| g@),
                    group == gvs[gi as int],
                    es == graph.eview(),
                    n_edges == keep@.len(),
                    n_edges == graph.edges@.len(),
                    n_edges == es.len(),
                    forall|k2: int|
                        0 <= k2 < es.len() ==> crate::geomath::coords_bounded(
                            (#[trigger] es[k2]).linestring,
                        ) && es[k2].linestring.len() < 0x10_0000,
                    k <= n_edges,
                    total <= 200000,
                    group_kept_len_upto(es, keep@, group, k as int) < 100000 ==> total
                        == group_kept_len_upto(es, keep@, group, k as int),
                    group_kept_len_upto(es, keep@, group, k as int) >= 100000 ==> 100000 <= total,
                decreases n_edges - k,
            {
                proof {
                    assert(es[k as int] == graph.edges@[k as int]@);
                }
                let in_group = keep[k] && contains_u64(&groups[gi], graph.edges[k].src.0);
                if in_group {
                    let d = crate::geomath::polyline_length(&graph.edges[k].linestring);
                    if total < 100000 {
                        total = if d >= 100000 {
                            100000
                        } else if total + d > 200000 {
                            200000
                        } else {
                            total + d
                        };
                    }
                }
                k += 1;
            }
            if total < 100000 {
                // Suppress the whole component.
                let mut k: usize = 0;
                while k < n_edges
                    invariant
                        gi < gvs.len(),
                        gvs == groups@.map_values(|g: Vec<u64>| g@),
                        group == gvs[gi as int],
                        es == graph.eview(),
                        n_edges == keep@.len(),
                        n_edges == graph.edges@.len(),
                        n_edges == es.len(),
                        group_kept_len(es, keep@, group) < spec_min_component_len(),
                        k <= n_edges,
                        r@.len() == n_edges,
                        forall|j: int|
                            0 <= j < k ==> r@[j] == (keep@[j] && !exists|i: int|
                                0 <= i < gi + 1 && (#[trigger] gvs[i]).contains(es[j].src.0)
                                    && group_kept_len(es, keep@, gvs[i])
                                    < spec_min_component_len()),
                        forall|j: int|
                            k <= j < n_edges ==> r@[j] == (keep@[j] && !exists|i: int|
                                0 <= i < gi && (#[trigger] gvs[i]).contains(es[j].src.0)
                                    && group_kept_len(es, keep@, gvs[i])
                                    < spec_min_component_len()),
                    decreases n_edges - k,
                {
                    proof {
                        assert(es[k as int] == graph.edges@[k as int]@);
                    }
                    if contains_u64(&groups[gi], graph.edges[k].src.0) {
                        r.set(k, false);
                        proof {
                            assert(gvs[gi as int].contains(es[k as int].src.0)) by {
                                let p = choose|p: int|
                                    0 <= p < groups@[gi as int]@.len() && groups@[gi as int]@[p]
                                        == es[k as int].src.0;
                                assert(gvs[gi as int][p] == es[k as int].src.0);
                            }
                        }
                    } else {
                        proof {
                            if gvs[gi as int].contains(es[k as int].src.0) {
                                let p = choose|p: int|
                                    0 <= p < gvs[gi as int].len() && gvs[gi as int][p] == es[
                                        k as int].src.0;
                                assert(groups@[gi as int]@[p] == es[k as int].src.0);
                            }
                        }
                    }
                    k += 1;
                }
            } else {
                proof {
                    assert(group_kept_len(es, keep@, group) >= spec_min_component_len());
                    assert forall|j: int| 0 <= j < n_edges implies r@[j] == (keep@[j]
                        && !exists|i: int|
                        0 <= i < gi + 1 && (#[trigger] gvs[i]).contains(es[j].src.0)
                            && group_kept_len(es, keep@, gvs[i]) < spec_min_component_len()) by {
                        if r@[j] && gvs[gi as int].contains(es[j].src.0) {
                        }
                    }
                }
            }
            gi += 1;
        }
        proof {
            assert(r@ =~= short_suppressed(es, keep@, gvs));
        }
        r
    }

    /// The exportable network: the filter's kept mask with every component
    /// under the minimum total length suppressed. The grouping into
    /// components is the graph library's; everything else is exact.
    pub fn export_network(&self, graph: &Graph, filter: &NetworkFilter) -> (r: Vec<bool>)
        requires
            graph.eview().len() < 0x10_0000,
            forall|k: int|
                0 <= k < graph.eview().len() ==> crate::geomath::coords_bounded(
                    (#[trigger] graph.eview()[k]).linestring,
                ) && graph.eview()[k].linestring.len() < 0x10_0000,
        ensures
            ({
                let keep = network_keep_mask(
                    self.derived_ways@,
                    graph.eview(),
                    graph.iview(),
                    *filter,
                );
                exists|gs: Seq<Seq<u64>>|
                    {
                        &&& #[trigger] groups_ok(
                            kept_pairs(graph.eview(), keep),
                            kept_nodes(graph.eview(), keep),
                            gs,
                        )
                        &&& r@ == short_suppressed(graph.eview(), keep, gs)
                    }
            }),
    {
        let keep = self.network_keep_exec(graph, filter);
        let groups = self.component_groups(graph, &keep);
        let r = self.suppress_short_components(graph, &keep, &groups);
        proof {
            let gs = groups@.map_values(|g: Vec<u64>| g@);
            let keepm = network_keep_mask(
                self.derived_ways@,
                graph.eview(),
                graph.iview(),
                *filter,
            );
            assert(groups_ok(
                kept_pairs(graph.eview(), keepm),
                kept_nodes(graph.eview(), keepm),
                gs,
            ) && r@ == short_suppressed(graph.eview(), keepm, gs));
        }
        r
    }
}

/// Is the value one of the list's entries?
fn contains_u64(v: &Vec<u64>, x: u64) -> (r: bool)
    ensures
        r == v@.contains(x),
{
    let n = v.len();
    let mut i: usize = 0;
    while i < n
        invariant
            n == v@.len(),
            i <= n,
            forall|j: int| 0 <= j < i ==> v@[j] != x,
        decreases n - i,
    {
        if v[i] == x {
            return true;
        }
        i += 1;
    }
    false
}

} // verus!

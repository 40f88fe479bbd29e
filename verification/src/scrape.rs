//! Building a model from parsed map elements: plain node and way records,
//! already projected, become the authoritative store, classified and made
//! consistent.

use vstd::prelude::*;
use crate::tags::{Tags, tags_wf};
use crate::classify::Kind;
use crate::store::{Node, Way, Speedwalk};
use crate::idmap::{IdMap, DupView};
use crate::edits::{Edits, StoreV, materialize};

verus! {

/// A parsed node: identifier, planar position in thousandths of a unit,
/// geographic position in ten-millionths of a degree, tags, version.
pub struct InputNode {
    pub id: i64,
    pub x: i64,
    pub y: i64,
    pub lon: i64,
    pub lat: i64,
    pub tags: Tags,
    pub version: i32,
}

/// A parsed way: identifier, ordered node references, tags, version.
pub struct InputWay {
    pub id: i64,
    pub node_ids: Vec<i64>,
    pub tags: Tags,
    pub version: i32,
}

pub ghost struct InputNodeV {
    pub id: i64,
    pub x: i64,
    pub y: i64,
    pub lon: i64,
    pub lat: i64,
    pub tags: Seq<(Seq<char>, Seq<char>)>,
    pub version: i32,
}

impl View for InputNode {
    type V = InputNodeV;

    open spec fn view(&self) -> InputNodeV {
        InputNodeV {
            id: self.id,
            x: self.x,
            y: self.y,
            lon: self.lon,
            lat: self.lat,
            tags: self.tags@,
            version: self.version,
        }
    }
}

pub ghost struct InputWayV {
    pub id: i64,
    pub node_ids: Seq<i64>,
    pub tags: Seq<(Seq<char>, Seq<char>)>,
    pub version: i32,
}

impl View for InputWay {
    type V = InputWayV;

    open spec fn view(&self) -> InputWayV {
        InputWayV {
            id: self.id,
            node_ids: self.node_ids@,
            tags: self.tags@,
            version: self.version,
        }
    }
}

/// What one parsed node becomes in the store: its data, with the derived
/// fields blank until the first recomputation.
pub open spec fn stored_node(n: InputNodeV) -> crate::store::NodeView {
    crate::store::NodeView {
        x: n.x,
        y: n.y,
        lon: n.lon,
        lat: n.lat,
        tags: n.tags,
        version: n.version,
        way_ids: Seq::empty(),
        modified: false,
        problems: Seq::empty(),
    }
}

/// The node map the inputs build, in input order; map identifiers are
/// positive, so non-positive input identifiers are dropped (synthetic
/// geometry owns the negative ones).
pub open spec fn node_store(ins: Seq<InputNodeV>) -> Seq<(i64, crate::store::NodeView)>
    decreases ins.len(),
{
    if ins.len() == 0 {
        Seq::empty()
    } else {
        let p = node_store(ins.drop_last());
        if ins.last().id > 0 {
            crate::idmap::id_set(p, ins.last().id, stored_node(ins.last()))
        } else {
            p
        }
    }
}

/// A parsed way enters the store when its identifier is positive, it
/// carries a highway tag, is not an area, and every node reference
/// resolves.
pub open spec fn way_accepted(
    nm: Seq<(i64, crate::store::NodeView)>,
    w: InputWayV,
) -> bool {
    &&& w.id > 0
    &&& crate::tags::tag_has(w.tags, "highway"@)
    &&& !crate::tags::tag_is(w.tags, "area"@, "yes"@)
    &&& forall|j: int| 0 <= j < w.node_ids.len() ==> crate::idmap::id_has(nm, #[trigger] w.node_ids[j])
}

/// What an accepted way becomes: polyline read off its nodes, kind read off
/// its tags.
pub open spec fn stored_way(
    nm: Seq<(i64, crate::store::NodeView)>,
    w: InputWayV,
) -> crate::store::WayView {
    crate::store::WayView {
        node_ids: w.node_ids,
        linestring: crate::edits::linestring_of(nm, w.node_ids),
        tags: w.tags,
        version: w.version,
        kind: crate::classify::spec_classify(w.tags),
        modified: false,
        problems: Seq::empty(),
    }
}

/// The way map the inputs build, in input order.
pub open spec fn way_store(
    nm: Seq<(i64, crate::store::NodeView)>,
    iws: Seq<InputWayV>,
) -> Seq<(i64, crate::store::WayView)>
    decreases iws.len(),
{
    if iws.len() == 0 {
        Seq::empty()
    } else {
        let p = way_store(nm, iws.drop_last());
        if way_accepted(nm, iws.last()) {
            crate::idmap::id_set(p, iws.last().id, stored_way(nm, iws.last()))
        } else {
            p
        }
    }
}

/// Does some stored way run through this node?
pub open spec fn node_used(ws: Seq<(i64, crate::store::WayView)>, nid: i64) -> bool {
    exists|j: int| 0 <= j < ws.len() && (#[trigger] ws[j]).1.node_ids.contains(nid)
}

/// The node map with every node no stored way references removed.
pub open spec fn prune_nodes(
    nm: Seq<(i64, crate::store::NodeView)>,
    ws: Seq<(i64, crate::store::WayView)>,
) -> Seq<(i64, crate::store::NodeView)>
    decreases nm.len(),
{
    if nm.len() == 0 {
        Seq::empty()
    } else {
        let p = prune_nodes(nm.drop_last(), ws);
        if node_used(ws, nm.last().0) {
            p.push(nm.last())
        } else {
            p
        }
    }
}

/// Every pruned entry is one of the source entries.
proof fn lemma_prune_sub(
    nm: Seq<(i64, crate::store::NodeView)>,
    ws: Seq<(i64, crate::store::WayView)>,
)
    ensures
        forall|e: int|
            0 <= e < prune_nodes(nm, ws).len() ==> exists|p: int|
                0 <= p < nm.len() && nm[p] == #[trigger] prune_nodes(nm, ws)[e],
    decreases nm.len(),
{
    if nm.len() > 0 {
        lemma_prune_sub(nm.drop_last(), ws);
        let r = prune_nodes(nm, ws);
        let pr = prune_nodes(nm.drop_last(), ws);
        assert forall|e: int| 0 <= e < r.len() implies exists|p: int|
            0 <= p < nm.len() && nm[p] == #[trigger] r[e] by {
            if e < pr.len() {
                assert(r[e] == pr[e]);
                let p = choose|p: int| 0 <= p < nm.drop_last().len() && nm.drop_last()[p] == pr[e];
                assert(nm[p] == r[e]);
            } else {
                assert(nm[nm.len() - 1] == r[e]);
            }
        }
    }
}

/// Pruning keeps the keys sorted.
proof fn lemma_prune_sorted(
    nm: Seq<(i64, crate::store::NodeView)>,
    ws: Seq<(i64, crate::store::WayView)>,
)
    requires
        crate::idmap::id_sorted(nm),
    ensures
        crate::idmap::id_sorted(prune_nodes(nm, ws)),
    decreases nm.len(),
{
    if nm.len() > 0 {
        lemma_prune_sorted(nm.drop_last(), ws);
        lemma_prune_sub(nm.drop_last(), ws);
        let r = prune_nodes(nm, ws);
        let pr = prune_nodes(nm.drop_last(), ws);
        if node_used(ws, nm.last().0) {
            assert forall|a: int, b: int| 0 <= a < b < r.len() implies r[a].0 < r[b].0 by {
                if b == r.len() - 1 {
                    assert(r[a] == pr[a]);
                    let p = choose|p: int|
                        0 <= p < nm.drop_last().len() && nm.drop_last()[p] == pr[a];
                    assert(nm[p].0 < nm[nm.len() - 1].0);
                } else {
                    assert(r[a] == pr[a] && r[b] == pr[b]);
                }
            }
        }
    }
}

/// Build a model from parsed elements: exactly the positive-identifier
/// nodes, exactly the accepted ways (highway-tagged, not an area, all
/// references resolving) with polylines read off the nodes and kinds read
/// off the tags, and then only the nodes some stored way runs through. The
/// derived store is the materialization of the empty log: memberships and
/// problems recomputed from the fresh original store.
pub fn scrape_osm(input_nodes: Vec<InputNode>, input_ways: Vec<InputWay>, timestamp: Option<i64>) -> (r:
    Speedwalk)
    requires
        forall|i: int| 0 <= i < input_nodes@.len() ==> tags_wf((#[trigger] input_nodes@[i]).tags@),
        forall|i: int| 0 <= i < input_ways@.len() ==> tags_wf((#[trigger] input_ways@[i]).tags@),
    ensures
        ({
            let nm = node_store(input_nodes@.map_values(|n: InputNode| n@));
            let ws = way_store(nm, input_ways@.map_values(|w: InputWay| w@));
            &&& r.original_ways@ == ws
            &&& r.original_nodes@ == prune_nodes(nm, ws)
        }),
        r.original_nodes.wf(),
        r.original_ways.wf(),
        crate::edits::nodes_tags_wf(r.original_nodes@),
        crate::edits::ways_tags_wf(r.original_ways@),
        crate::edits::ways_len_ok(r.original_ways@),
        r.edits.spec_commands() == Seq::<crate::edits::UserCmdView>::empty(),
        r.edits.spec_consequences() == Seq::<crate::edits::ConsequenceView>::empty(),
        r.edits.id_counter == 0,
        r.derived_nodes@ == materialize(
            StoreV { nodes: r.original_nodes@, ways: r.original_ways@ },
            Seq::<crate::edits::ConsequenceView>::empty(),
        ).nodes,
        r.derived_ways@ == materialize(
            StoreV { nodes: r.original_nodes@, ways: r.original_ways@ },
            Seq::<crate::edits::ConsequenceView>::empty(),
        ).ways,
        r.timestamp == timestamp,
{
    let ghost inv = input_nodes@.map_values(|n: InputNode| n@);
    let ghost iwv = input_ways@.map_values(|w: InputWay| w@);
    let mut nodes: IdMap<Node> = IdMap::new();
    let n_in = input_nodes.len();
    let mut i: usize = 0;
    proof {
        assert(inv.subrange(0, 0) =~= Seq::<InputNodeV>::empty());
        assert(nodes@ =~= node_store(inv.subrange(0, 0)));
    }
    while i < n_in
        invariant
            n_in == inv.len(),
            inv == input_nodes@.map_values(|n: InputNode| n@),
            forall|k: int|
                0 <= k < input_nodes@.len() ==> tags_wf((#[trigger] input_nodes@[k]).tags@),
            i <= n_in,
            nodes.wf(),
            crate::edits::nodes_tags_wf(nodes@),
            nodes@ == node_store(inv.subrange(0, i as int)),
        decreases n_in - i,
    {
        proof {
            let cur = inv.subrange(0, i as int + 1);
            assert(cur.drop_last() =~= inv.subrange(0, i as int));
            assert(cur.last() == inv[i as int]);
        }
        let src = &input_nodes[i];
        if src.id > 0 {
            let ghost pre = nodes@;
            let nd = Node {
                x: src.x,
                y: src.y,
                lon: src.lon,
                lat: src.lat,
                tags: src.tags.duplicate(),
                version: src.version,
                way_ids: Vec::new(),
                modified: false,
                problems: Vec::new(),
            };
            let ghost ndv = nd@;
            proof {
                assert(ndv.way_ids =~= Seq::<i64>::empty());
                assert(ndv.problems =~= Seq::<crate::store::ProblemView>::empty());
                assert(ndv == stored_node(inv[i as int]));
            }
            nodes.insert(src.id, nd);
            proof {
                crate::edits::lemma_id_set_pred(
                    pre,
                    input_nodes@[i as int].id,
                    ndv,
                    |n: crate::store::NodeView| tags_wf(n.tags),
                );
            }
        }
        i += 1;
    }
    proof {
        assert(inv.subrange(0, n_in as int) =~= inv);
    }
    let ghost nm = nodes@;

    let mut ways: IdMap<Way> = IdMap::new();
    let w_in = input_ways.len();
    let mut i: usize = 0;
    proof {
        assert(iwv.subrange(0, 0) =~= Seq::<InputWayV>::empty());
        assert(ways@ =~= way_store(nm, iwv.subrange(0, 0)));
    }
    while i < w_in
        invariant
            w_in == iwv.len(),
            iwv == input_ways@.map_values(|w: InputWay| w@),
            forall|k: int| 0 <= k < input_ways@.len() ==> tags_wf((#[trigger] input_ways@[k]).tags@),
            i <= w_in,
            nodes.wf(),
            crate::edits::nodes_tags_wf(nodes@),
            nodes@ == nm,
            ways.wf(),
            crate::edits::ways_tags_wf(ways@),
            crate::edits::ways_len_ok(ways@),
            ways@ == way_store(nm, iwv.subrange(0, i as int)),
        decreases w_in - i,
    {
        proof {
            let cur = iwv.subrange(0, i as int + 1);
            assert(cur.drop_last() =~= iwv.subrange(0, i as int));
            assert(cur.last() == iwv[i as int]);
        }
        let src = &input_ways[i];
        let qualifies = src.id > 0 && src.tags.has("highway") && !src.tags.is("area", "yes");
        if qualifies {
            // Every referenced node must be known.
            let n_ids = src.node_ids.len();
            let mut all_known = true;
            let mut j: usize = 0;
            while j < n_ids && all_known
                invariant
                    n_ids == src.node_ids@.len(),
                    src.node_ids@ == iwv[i as int].node_ids,
                    i < iwv.len(),
                    nodes@ == nm,
                    j <= n_ids,
                    all_known ==> forall|q: int|
                        0 <= q < j ==> crate::idmap::id_has(nm, #[trigger] src.node_ids@[q]),
                    !all_known ==> j < n_ids && !crate::idmap::id_has(nm, src.node_ids@[j as int]),
                decreases n_ids - j + (if all_known {
                    1int
                } else {
                    0int
                }),
            {
                if !nodes.contains_key(src.node_ids[j]) {
                    all_known = false;
                } else {
                    j += 1;
                }
            }
            if all_known {
                proof {
                    assert(way_accepted(nm, iwv[i as int]));
                }
                let ids = crate::store::copy_id_vec(&src.node_ids);
                let mut ls: Vec<(i64, i64)> = Vec::new();
                let mut j: usize = 0;
                while j < n_ids
                    invariant
                        n_ids == src.node_ids@.len(),
                        src.node_ids@ == iwv[i as int].node_ids,
                        i < iwv.len(),
                        nodes@ == nm,
                        j <= n_ids,
                        ls@.len() == j,
                        forall|q: int|
                            0 <= q < j ==> ls@[q] == (match crate::idmap::id_find(
                                nm,
                                #[trigger] src.node_ids@[q],
                            ) {
                                Some(nd) => (nd.x, nd.y),
                                None => (0i64, 0i64),
                            }),
                    decreases n_ids - j,
                {
                    let pt = match nodes.get(src.node_ids[j]) {
                        Some(nd) => (nd.x, nd.y),
                        None => (0, 0),
                    };
                    ls.push(pt);
                    j += 1;
                }
                proof {
                    assert(ls@ =~= crate::edits::linestring_of(nm, iwv[i as int].node_ids));
                }
                let tags = src.tags.duplicate();
                let kind = Kind::classify(&tags);
                let ghost pre = ways@;
                let w = Way {
                    node_ids: ids,
                    linestring: ls,
                    tags,
                    version: src.version,
                    kind,
                    modified: false,
                    problems: Vec::new(),
                };
                let ghost wv = w@;
                proof {
                    assert(wv.problems =~= Seq::<crate::store::ProblemView>::empty());
                    assert(wv == stored_way(nm, iwv[i as int]));
                }
                ways.insert(src.id, w);
                proof {
                    crate::edits::lemma_id_set_pred(
                        pre,
                        input_ways@[i as int].id,
                        wv,
                        |x: crate::store::WayView| tags_wf(x.tags),
                    );
                    crate::edits::lemma_id_set_pred(
                        pre,
                        input_ways@[i as int].id,
                        wv,
                        |x: crate::store::WayView| x.linestring.len() == x.node_ids.len(),
                    );
                }
            } else {
                proof {
                    assert(!way_accepted(nm, iwv[i as int]));
                }
            }
        } else {
            proof {
                assert(!way_accepted(nm, iwv[i as int]));
            }
        }
        i += 1;
    }
    proof {
        assert(iwv.subrange(0, w_in as int) =~= iwv);
    }
    let ghost ws = ways@;

    // Keep only the nodes some stored way runs through.
    let mut pruned: IdMap<Node> = IdMap::new();
    let node_count = nodes.len();
    let mut i: usize = 0;
    proof {
        assert(nm.subrange(0, 0) =~= Seq::<(i64, crate::store::NodeView)>::empty());
        assert(pruned@ =~= prune_nodes(nm.subrange(0, 0), ws));
    }
    while i < node_count
        invariant
            node_count == nm.len(),
            nodes@ == nm,
            crate::idmap::id_sorted(nm),
            crate::edits::nodes_tags_wf(nm),
            ways@ == ws,
            ways.wf(),
            i <= node_count,
            pruned.wf(),
            pruned@ == prune_nodes(nm.subrange(0, i as int), ws),
        decreases node_count - i,
    {
        proof {
            let cur = nm.subrange(0, i as int + 1);
            assert(cur.drop_last() =~= nm.subrange(0, i as int));
            assert(cur.last() == nm[i as int]);
        }
        let nid = nodes.key_at(i);
        let way_count = ways.len();
        let mut member = false;
        let mut wi: usize = 0;
        while wi < way_count
            invariant
                way_count == ws.len(),
                ways@ == ws,
                wi <= way_count,
                member ==> node_used(ws, nid),
                !member ==> forall|q: int|
                    0 <= q < wi ==> !(#[trigger] ws[q]).1.node_ids.contains(nid),
            decreases way_count - wi,
        {
            if crate::edits::contains_id(&ways.value_at(wi).node_ids, nid) {
                member = true;
            }
            wi += 1;
        }
        if member {
            let ghost pre = pruned@;
            let nd = nodes.value_at(i).dup();
            proof {
                lemma_prune_sub(nm.subrange(0, i as int), ws);
                assert forall|e: int| 0 <= e < pre.len() implies pre[e].0 < nid by {
                    let p = choose|p: int|
                        0 <= p < nm.subrange(0, i as int).len() && nm.subrange(0, i as int)[p]
                            == pre[e];
                    assert(nm[p].0 < nm[i as int].0);
                }
            }
            pruned.insert(nid, nd);
            proof {
                crate::idmap::lemma_id_set_is_push(pre, nid, nm[i as int].1);
                assert(pruned@ =~= prune_nodes(nm.subrange(0, i as int + 1), ws));
            }
        }
        i += 1;
    }
    proof {
        assert(nm.subrange(0, node_count as int) =~= nm);
        lemma_prune_sorted(nm, ws);
        lemma_prune_sub(nm, ws);
        assert forall|k: int| 0 <= k < pruned@.len() implies tags_wf(
            (#[trigger] pruned@[k]).1.tags,
        ) by {
            let p = choose|p: int| 0 <= p < nm.len() && nm[p] == pruned@[k];
            assert(tags_wf(nm[p].1.tags));
        }
    }

    let derived_nodes = pruned.duplicate();
    let derived_ways = ways.duplicate();
    let mut model = Speedwalk {
        original_nodes: pruned,
        original_ways: ways,
        timestamp,
        edits: Edits::new(),
        derived_nodes,
        derived_ways,
    };
    proof {
        assert(crate::edits::conseqs_wf(model.edits.spec_consequences()));
    }
    model.after_edit();
    model
}

/// The summed length of the ways of one kind.
pub open spec fn kind_len_sum(ways: Seq<(i64, crate::store::WayView)>, kind: Kind) -> nat
    decreases ways.len(),
{
    if ways.len() == 0 {
        0
    } else {
        kind_len_sum(ways.drop_last(), kind) + if ways.last().1.kind == kind {
            crate::geomath::polyline_len(ways.last().1.linestring)
        } else {
            0nat
        }
    }
}

impl Speedwalk {
    /// The total length of the derived ways of one kind, capped at the
    /// largest representable value.
    pub fn total_length_for_kind(&self, kind: Kind) -> (r: u64)
        requires
            forall|i: int|
                0 <= i < self.derived_ways@.len() ==> crate::geomath::coords_bounded(
                    (#[trigger] self.derived_ways@[i]).1.linestring,
                ) && self.derived_ways@[i].1.linestring.len() < 0x10_0000,
        ensures
            r == crate::network::capped(kind_len_sum(self.derived_ways@, kind)),
    {
        let ghost ways = self.derived_ways@;
        let n = self.derived_ways.len();
        let mut total: u64 = 0;
        let mut i: usize = 0;
        proof {
            assert(ways.subrange(0, 0) =~= Seq::<(i64, crate::store::WayView)>::empty());
        }
        while i < n
            invariant
                n == ways.len(),
                self.derived_ways@ == ways,
                forall|k: int|
                    0 <= k < ways.len() ==> crate::geomath::coords_bounded(
                        (#[trigger] ways[k]).1.linestring,
                    ) && ways[k].1.linestring.len() < 0x10_0000,
                i <= n,
                total == crate::network::capped(kind_len_sum(ways.subrange(0, i as int), kind)),
            decreases n - i,
        {
            proof {
                let cur = ways.subrange(0, i as int + 1);
                assert(cur.drop_last() =~= ways.subrange(0, i as int));
                assert(cur.last() == ways[i as int]);
            }
            let w = self.derived_ways.value_at(i);
            let matches_kind = match (w.kind, kind) {
                (Kind::RoadWithSeparate, Kind::RoadWithSeparate) => true,
                (Kind::RoadWithTags, Kind::RoadWithTags) => true,
                (Kind::RoadWithoutSidewalksExplicit, Kind::RoadWithoutSidewalksExplicit) => true,
                (Kind::RoadWithoutSidewalksImplicit, Kind::RoadWithoutSidewalksImplicit) => true,
                (Kind::RoadUnknown, Kind::RoadUnknown) => true,
                (Kind::Sidewalk, Kind::Sidewalk) => true,
                (Kind::Crossing, Kind::Crossing) => true,
                (Kind::Other, Kind::Other) => true,
                _ => false,
            };
            if matches_kind {
                let d = crate::geomath::polyline_length(&w.linestring);
                if d > u64::MAX - total {
                    total = u64::MAX;
                } else {
                    total = total + d;
                }
            }
            i += 1;
        }
        proof {
            assert(ways.subrange(0, n as int) =~= ways);
        }
        total
    }
}

} // verus!

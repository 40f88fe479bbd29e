//! The edit log: an append-only list of user commands, each with the
//! consequence it had when applied. The derived store is always the original
//! store replayed through every consequence in log order; it is recomputed in
//! full after every change to the log, never patched incrementally.

use vstd::prelude::*;
use crate::classify::{Kind, spec_classify};
use crate::store::{Node, NodeView, Way, WayView, Speedwalk};
use crate::idmap::{IdMap, DupView, id_find, id_has, id_set, id_sorted};
use crate::tags::{
    Tags,
    tags_wf,
    tag_set,
    tag_remove,
    lemma_tag_set_found,
    lemma_tag_set_missing,
    lemma_tag_remove_found,
    lemma_tag_remove_missing,
    lemma_tags_wf_update,
};

verus! {

/// One ordered tag mutation.
pub enum TagCmd {
    Assign(String, String),
    Remove(String),
}

pub ghost enum TagCmdView {
    Assign(Seq<char>, Seq<char>),
    Remove(Seq<char>),
}

impl View for TagCmd {
    type V = TagCmdView;

    open spec fn view(&self) -> TagCmdView {
        match self {
            TagCmd::Assign(k, v) => TagCmdView::Assign(k@, v@),
            TagCmd::Remove(k) => TagCmdView::Remove(k@),
        }
    }
}

/// One tag command applied to a tag sequence.
pub open spec fn apply_tag_cmd(
    t: Seq<(Seq<char>, Seq<char>)>,
    c: TagCmdView,
) -> Seq<(Seq<char>, Seq<char>)> {
    match c {
        TagCmdView::Assign(k, v) => tag_set(t, k, v),
        TagCmdView::Remove(k) => tag_remove(t, k),
    }
}

/// A list of tag commands applied in order.
pub open spec fn apply_tag_cmds(
    t: Seq<(Seq<char>, Seq<char>)>,
    cs: Seq<TagCmdView>,
) -> Seq<(Seq<char>, Seq<char>)>
    decreases cs.len(),
{
    if cs.len() == 0 {
        t
    } else {
        apply_tag_cmd(apply_tag_cmds(t, cs.drop_last()), cs.last())
    }
}

/// Setting a key keeps keys unique.
pub proof fn lemma_tag_set_wf(t: Seq<(Seq<char>, Seq<char>)>, k: Seq<char>, v: Seq<char>)
    requires
        tags_wf(t),
    ensures
        tags_wf(tag_set(t, k, v)),
{
    if exists|i: int| 0 <= i < t.len() && t[i].0 == k {
        let i = choose|i: int| 0 <= i < t.len() && t[i].0 == k;
        assert forall|j: int| 0 <= j < i implies t[j].0 != k by {
            assert(t[j].0 != t[i].0);
        }
        lemma_tag_set_found(t, k, v, i);
        lemma_tags_wf_update(t, k, v, i);
    } else {
        lemma_tag_set_missing(t, k, v);
        let u = t.push((k, v));
        assert forall|a: int, b: int| 0 <= a < b < u.len() implies u[a].0 != u[b].0 by {
            if b == t.len() {
                assert(u[a] == t[a]);
            } else {
                assert(t[a].0 != t[b].0);
            }
        }
    }
}

/// Removing a key keeps keys unique.
pub proof fn lemma_tag_remove_wf(t: Seq<(Seq<char>, Seq<char>)>, k: Seq<char>)
    requires
        tags_wf(t),
    ensures
        tags_wf(tag_remove(t, k)),
{
    if exists|i: int| 0 <= i < t.len() && t[i].0 == k {
        let i = choose|i: int| 0 <= i < t.len() && t[i].0 == k;
        assert forall|j: int| 0 <= j < t.len() && j != i implies t[j].0 != k by {
            if j < i {
                assert(t[j].0 != t[i].0);
            } else {
                assert(t[i].0 != t[j].0);
            }
        }
        lemma_tag_remove_found(t, k, i);
        let u = t.subrange(0, i) + t.subrange(i + 1, t.len() as int);
        assert forall|a: int, b: int| 0 <= a < b < u.len() implies u[a].0 != u[b].0 by {
            let a0 = if a < i {
                a
            } else {
                a + 1
            };
            let b0 = if b < i {
                b
            } else {
                b + 1
            };
            assert(u[a] == t[a0]);
            assert(u[b] == t[b0]);
            assert(t[a0].0 != t[b0].0);
        }
    } else {
        lemma_tag_remove_missing(t, k);
    }
}

/// Applying any list of tag commands keeps keys unique.
pub proof fn lemma_apply_tag_cmds_wf(t: Seq<(Seq<char>, Seq<char>)>, cs: Seq<TagCmdView>)
    requires
        tags_wf(t),
    ensures
        tags_wf(apply_tag_cmds(t, cs)),
    decreases cs.len(),
{
    if cs.len() > 0 {
        lemma_apply_tag_cmds_wf(t, cs.drop_last());
        let u = apply_tag_cmds(t, cs.drop_last());
        match cs.last() {
            TagCmdView::Assign(k, v) => lemma_tag_set_wf(u, k, v),
            TagCmdView::Remove(k) => lemma_tag_remove_wf(u, k),
        }
    }
}

impl Tags {
    /// Apply a list of tag commands, in order.
    pub fn apply_cmds(&mut self, cs: &Vec<TagCmd>)
        requires
            old(self).wf(),
        ensures
            final(self)@ == apply_tag_cmds(old(self)@, cs@.map_values(|c: TagCmd| c@)),
            final(self).wf(),
    {
        let ghost cvs = cs@.map_values(|c: TagCmd| c@);
        let n = cs.len();
        let mut i: usize = 0;
        proof {
            assert(cvs.subrange(0, 0) =~= Seq::<TagCmdView>::empty());
        }
        while i < n
            invariant
                n == cs@.len(),
                cvs == cs@.map_values(|c: TagCmd| c@),
                i <= n,
                self.wf(),
                self@ == apply_tag_cmds(old(self)@, cvs.subrange(0, i as int)),
            decreases n - i,
        {
            proof {
                let pre = cvs.subrange(0, i as int);
                let cur = cvs.subrange(0, i as int + 1);
                assert(cur.drop_last() =~= pre);
                assert(cur.last() == cvs[i as int]);
            }
            match &cs[i] {
                TagCmd::Assign(k, v) => {
                    self.insert(k.as_str(), v.as_str());
                },
                TagCmd::Remove(k) => {
                    self.remove(k.as_str());
                },
            }
            i += 1;
        }
        proof {
            assert(cvs.subrange(0, n as int) =~= cvs);
        }
    }
}

/// Which side of a way a sidewalk is synthesized on.
#[derive(Clone, Copy, Debug, PartialEq, Eq, Structural)]
pub enum Side {
    Left,
    Right,
}

/// How a synthesized curve is cut back where it meets crossings or other
/// sidewalks.
#[derive(Clone, Copy, Debug, PartialEq, Eq, Structural)]
pub enum TrimPolicy {
    /// Trim the curve back a fixed distance (thousandths of a unit) from
    /// every crossing point.
    TrimBackFromCrossings(i64),
    /// Stop the curve where it first or last meets another sidewalk-like way.
    StopAtSidewalks,
}

/// A point carrying both planar (thousandths of a unit) and geographic
/// (ten-millionths of a degree) coordinates. Synthesized geometry arrives in
/// this form so new nodes can be exported without further projection.
#[derive(Clone, Copy, Debug, PartialEq, Eq, Structural)]
pub struct PtGeo {
    pub x: i64,
    pub y: i64,
    pub lon: i64,
    pub lat: i64,
}

/// New geometry to be materialized: whole new ways, and points to splice
/// into existing ways.
pub struct CreateNewGeometry {
    /// New polylines with their tags. All share one kind.
    pub new_objects: Vec<(Vec<PtGeo>, Tags)>,
    pub new_kind: Kind,
    /// Per existing way: points to insert, each with the index in that way's
    /// node list where it belongs, listed with indices strictly descending.
    pub modify_existing: Vec<(i64, Vec<(PtGeo, usize)>)>,
}

pub ghost struct CreateNewGeometryView {
    pub new_objects: Seq<(Seq<PtGeo>, Seq<(Seq<char>, Seq<char>)>)>,
    pub new_kind: Kind,
    pub modify_existing: Seq<(i64, Seq<(PtGeo, usize)>)>,
}

impl View for CreateNewGeometry {
    type V = CreateNewGeometryView;

    open spec fn view(&self) -> CreateNewGeometryView {
        CreateNewGeometryView {
            new_objects: self.new_objects@.map_values(
                |o: (Vec<PtGeo>, Tags)| (o.0@, o.1@),
            ),
            new_kind: self.new_kind,
            modify_existing: self.modify_existing@.map_values(
                |m: (i64, Vec<(PtGeo, usize)>)| (m.0, m.1@),
            ),
        }
    }
}

/// A user command, as recorded in the edit log.
pub enum UserCmd {
    /// Replace the sidewalk tagging of one way.
    SetTags(i64, Vec<(String, String)>),
    /// Synthesize sidewalks for one way on one side, offset in thousandths
    /// of a unit.
    MakeSidewalk(i64, Side, i64, TrimPolicy),
    /// Synthesize sidewalks for every qualifying way; the flag restricts the
    /// batch to severances.
    MakeAllSidewalks(bool),
    /// Connect one crossing node to the sidewalks beside it.
    ConnectCrossing(i64),
    /// Connect every qualifying crossing node.
    ConnectAllCrossings,
    /// Tag untagged one-way severances with an assumed sidewalk side.
    AssumeTags(bool),
    /// Split a synthesized sidewalk at the side roads it crosses.
    SplitAtSideRoads(i64),
    /// Add a crossing node at a point, splicing it into the nearest road.
    AddCrossing(PtGeo, Tags),
}

pub ghost enum UserCmdView {
    SetTags(i64, Seq<(Seq<char>, Seq<char>)>),
    MakeSidewalk(i64, Side, i64, TrimPolicy),
    MakeAllSidewalks(bool),
    ConnectCrossing(i64),
    ConnectAllCrossings,
    AssumeTags(bool),
    SplitAtSideRoads(i64),
    AddCrossing(PtGeo, Seq<(Seq<char>, Seq<char>)>),
}

impl View for UserCmd {
    type V = UserCmdView;

    open spec fn view(&self) -> UserCmdView {
        match self {
            UserCmd::SetTags(w, pairs) => UserCmdView::SetTags(
                *w,
                pairs@.map_values(|p: (String, String)| (p.0@, p.1@)),
            ),
            UserCmd::MakeSidewalk(w, s, o, t) => UserCmdView::MakeSidewalk(*w, *s, *o, *t),
            UserCmd::MakeAllSidewalks(b) => UserCmdView::MakeAllSidewalks(*b),
            UserCmd::ConnectCrossing(n) => UserCmdView::ConnectCrossing(*n),
            UserCmd::ConnectAllCrossings => UserCmdView::ConnectAllCrossings,
            UserCmd::AssumeTags(b) => UserCmdView::AssumeTags(*b),
            UserCmd::SplitAtSideRoads(w) => UserCmdView::SplitAtSideRoads(*w),
            UserCmd::AddCrossing(p, t) => UserCmdView::AddCrossing(*p, t@),
        }
    }
}

/// What one command did to the store, as pure data: ordered tag mutations
/// and node-list replacements per way, and brand-new records.
pub struct Consequence {
    pub tag_changes: Vec<(i64, Vec<TagCmd>)>,
    pub node_replacements: Vec<(i64, Vec<i64>)>,
    pub new_nodes: Vec<(i64, Node)>,
    pub new_ways: Vec<(i64, Way)>,
}

pub ghost struct ConsequenceView {
    pub tag_changes: Seq<(i64, Seq<TagCmdView>)>,
    pub node_replacements: Seq<(i64, Seq<i64>)>,
    pub new_nodes: Seq<(i64, NodeView)>,
    pub new_ways: Seq<(i64, WayView)>,
}

impl View for Consequence {
    type V = ConsequenceView;

    open spec fn view(&self) -> ConsequenceView {
        ConsequenceView {
            tag_changes: self.tag_changes@.map_values(
                |e: (i64, Vec<TagCmd>)| (e.0, e.1@.map_values(|c: TagCmd| c@)),
            ),
            node_replacements: self.node_replacements@.map_values(
                |e: (i64, Vec<i64>)| (e.0, e.1@),
            ),
            new_nodes: self.new_nodes@.map_values(|e: (i64, Node)| (e.0, e.1@)),
            new_ways: self.new_ways@.map_values(|e: (i64, Way)| (e.0, e.1@)),
        }
    }
}

impl ConsequenceView {
    /// A consequence that did nothing: what a failed command records.
    pub open spec fn empty() -> ConsequenceView {
        ConsequenceView {
            tag_changes: Seq::empty(),
            node_replacements: Seq::empty(),
            new_nodes: Seq::empty(),
            new_ways: Seq::empty(),
        }
    }
}

/// The edit log. `user_commands` and `consequences` run in parallel: entry i
/// of one belongs to entry i of the other.
pub struct Edits {
    pub user_commands: Vec<UserCmd>,
    pub consequences: Vec<Consequence>,
    /// Source of synthetic negative identifiers; strictly increasing.
    pub id_counter: u64,
}

impl Edits {
    pub open spec fn spec_consequences(&self) -> Seq<ConsequenceView> {
        self.consequences@.map_values(|c: Consequence| c@)
    }

    pub open spec fn spec_commands(&self) -> Seq<UserCmdView> {
        self.user_commands@.map_values(|c: UserCmd| c@)
    }

    pub fn new() -> (r: Edits)
        ensures
            r.spec_commands() == Seq::<UserCmdView>::empty(),
            r.spec_consequences() == Seq::<ConsequenceView>::empty(),
            r.id_counter == 0,
            r.user_commands@.len() == 0,
            r.consequences@.len() == 0,
    {
        let r = Edits { user_commands: Vec::new(), consequences: Vec::new(), id_counter: 0 };
        proof {
            assert(r.spec_commands() =~= Seq::<UserCmdView>::empty());
            assert(r.spec_consequences() =~= Seq::<ConsequenceView>::empty());
        }
        r
    }
}

/// A store snapshot at the specification level.
pub ghost struct StoreV {
    pub nodes: Seq<(i64, NodeView)>,
    pub ways: Seq<(i64, WayView)>,
}

/// Every entry bound in turn.
pub open spec fn id_set_all<T>(s: Seq<(i64, T)>, es: Seq<(i64, T)>) -> Seq<(i64, T)>
    decreases es.len(),
{
    if es.len() == 0 {
        s
    } else {
        id_set(id_set_all(s, es.drop_last()), es.last().0, es.last().1)
    }
}

/// Phase one of materialization: all new nodes and ways of every
/// consequence, in log order, before any mutation.
pub open spec fn apply_creations(sv: StoreV, cs: Seq<ConsequenceView>) -> StoreV
    decreases cs.len(),
{
    if cs.len() == 0 {
        sv
    } else {
        let p = apply_creations(sv, cs.drop_last());
        StoreV {
            nodes: id_set_all(p.nodes, cs.last().new_nodes),
            ways: id_set_all(p.ways, cs.last().new_ways),
        }
    }
}

/// A way after its tag commands: new tags, reclassified, marked modified.
pub open spec fn retag_way(w: WayView, cmds: Seq<TagCmdView>) -> WayView {
    let t = apply_tag_cmds(w.tags, cmds);
    WayView {
        tags: t,
        kind: spec_classify(t),
        modified: true,
        ..w
    }
}

/// Phase two: tag mutations, per target way, in log order. A target the
/// store does not hold is skipped.
pub open spec fn apply_tag_changes(
    ways: Seq<(i64, WayView)>,
    tcs: Seq<(i64, Seq<TagCmdView>)>,
) -> Seq<(i64, WayView)>
    decreases tcs.len(),
{
    if tcs.len() == 0 {
        ways
    } else {
        let p = apply_tag_changes(ways, tcs.drop_last());
        let wid = tcs.last().0;
        match id_find(p, wid) {
            Some(w) => id_set(p, wid, retag_way(w, tcs.last().1)),
            None => p,
        }
    }
}

pub open spec fn apply_all_tag_changes(
    ways: Seq<(i64, WayView)>,
    cs: Seq<ConsequenceView>,
) -> Seq<(i64, WayView)>
    decreases cs.len(),
{
    if cs.len() == 0 {
        ways
    } else {
        apply_tag_changes(apply_all_tag_changes(ways, cs.drop_last()), cs.last().tag_changes)
    }
}

/// The polyline a node-id list denotes: each node's position, in order. A
/// missing node yields the origin; well-formed logs never reference one.
pub open spec fn linestring_of(nodes: Seq<(i64, NodeView)>, ids: Seq<i64>) -> Seq<(i64, i64)> {
    ids.map_values(
        |n: i64| match id_find(nodes, n) {
            Some(nd) => (nd.x, nd.y),
            None => (0, 0),
        },
    )
}

/// A way after a node-list replacement: new nodes, rebuilt polyline, marked
/// modified.
pub open spec fn rewire_way(nodes: Seq<(i64, NodeView)>, w: WayView, ids: Seq<i64>) -> WayView {
    WayView {
        node_ids: ids,
        linestring: linestring_of(nodes, ids),
        modified: true,
        ..w
    }
}

/// Phase three: node-list replacements, in log order.
pub open spec fn apply_node_repls(
    nodes: Seq<(i64, NodeView)>,
    ways: Seq<(i64, WayView)>,
    nrs: Seq<(i64, Seq<i64>)>,
) -> Seq<(i64, WayView)>
    decreases nrs.len(),
{
    if nrs.len() == 0 {
        ways
    } else {
        let p = apply_node_repls(nodes, ways, nrs.drop_last());
        let wid = nrs.last().0;
        match id_find(p, wid) {
            Some(w) => id_set(p, wid, rewire_way(nodes, w, nrs.last().1)),
            None => p,
        }
    }
}

pub open spec fn apply_all_node_repls(
    nodes: Seq<(i64, NodeView)>,
    ways: Seq<(i64, WayView)>,
    cs: Seq<ConsequenceView>,
) -> Seq<(i64, WayView)>
    decreases cs.len(),
{
    if cs.len() == 0 {
        ways
    } else {
        apply_node_repls(
            nodes,
            apply_all_node_repls(nodes, ways, cs.drop_last()),
            cs.last().node_replacements,
        )
    }
}

/// The ways referencing a node, in ascending way order (the entry order of a
/// sorted way store).
pub open spec fn membership(ways: Seq<(i64, WayView)>, n: i64) -> Seq<i64>
    decreases ways.len(),
{
    if ways.len() == 0 {
        Seq::empty()
    } else {
        membership(ways.drop_last(), n) + if ways.last().1.node_ids.contains(n) {
            seq![ways.last().0]
        } else {
            Seq::empty()
        }
    }
}

/// Phase four: every node's way membership rebuilt from scratch, and its
/// problem list cleared for the detector.
pub open spec fn refresh_nodes(sv: StoreV) -> Seq<(i64, NodeView)> {
    sv.nodes.map_values(
        |e: (i64, NodeView)| (
            e.0,
            NodeView { way_ids: membership(sv.ways, e.0), problems: Seq::empty(), ..e.1 },
        ),
    )
}

/// Phase four, for ways: problem lists cleared for the detector.
pub open spec fn clear_way_problems(ways: Seq<(i64, WayView)>) -> Seq<(i64, WayView)> {
    ways.map_values(|e: (i64, WayView)| (e.0, WayView { problems: Seq::empty(), ..e.1 }))
}

/// The whole materialization pipeline, except problem detection: reset to
/// the original store, create, mutate, rebuild memberships.
pub open spec fn materialize_base(orig: StoreV, cs: Seq<ConsequenceView>) -> StoreV {
    let created = apply_creations(orig, cs);
    let tagged = apply_all_tag_changes(created.ways, cs);
    let rewired = apply_all_node_repls(created.nodes, tagged, cs);
    let sv = StoreV { nodes: created.nodes, ways: rewired };
    StoreV { nodes: refresh_nodes(sv), ways: clear_way_problems(sv.ways) }
}

/// The full pipeline: the original store replayed through every consequence,
/// memberships rebuilt, problems recomputed.
pub open spec fn materialize(orig: StoreV, cs: Seq<ConsequenceView>) -> StoreV {
    let b = materialize_base(orig, cs);
    let na = crate::problems::check_a(b.nodes, b.ways);
    StoreV { nodes: na, ways: crate::problems::check_b(na, b.ways) }
}

/// Tag keys are unique everywhere in a node store.
pub open spec fn nodes_tags_wf(ns: Seq<(i64, NodeView)>) -> bool {
    forall|i: int| 0 <= i < ns.len() ==> tags_wf((#[trigger] ns[i]).1.tags)
}

/// Tag keys are unique everywhere in a way store.
pub open spec fn ways_tags_wf(ws: Seq<(i64, WayView)>) -> bool {
    forall|i: int| 0 <= i < ws.len() ==> tags_wf((#[trigger] ws[i]).1.tags)
}

/// Every way's polyline has exactly one point per node.
pub open spec fn ways_len_ok(ws: Seq<(i64, WayView)>) -> bool {
    forall|i: int|
        0 <= i < ws.len() ==> (#[trigger] ws[i]).1.linestring.len() == ws[i].1.node_ids.len()
}

/// The records a consequence creates are themselves well formed.
pub open spec fn conseq_wf(c: ConsequenceView) -> bool {
    &&& forall|i: int| 0 <= i < c.new_nodes.len() ==> tags_wf((#[trigger] c.new_nodes[i]).1.tags)
    &&& forall|i: int| 0 <= i < c.new_ways.len() ==> tags_wf((#[trigger] c.new_ways[i]).1.tags)
    &&& forall|i: int|
        0 <= i < c.new_ways.len() ==> (#[trigger] c.new_ways[i]).1.linestring.len()
            == c.new_ways[i].1.node_ids.len()
}

pub open spec fn conseqs_wf(cs: Seq<ConsequenceView>) -> bool {
    forall|i: int| 0 <= i < cs.len() ==> conseq_wf(#[trigger] cs[i])
}

/// Binding one entry keeps a pointwise property of all values.
pub proof fn lemma_id_set_pred<T>(s: Seq<(i64, T)>, k: i64, v: T, p: spec_fn(T) -> bool)
    requires
        forall|i: int| 0 <= i < s.len() ==> p((#[trigger] s[i]).1),
        p(v),
    ensures
        forall|i: int| 0 <= i < id_set(s, k, v).len() ==> p((#[trigger] id_set(s, k, v)[i]).1),
    decreases s.len(),
{
    let u = id_set(s, k, v);
    if s.len() == 0 {
    } else if s[0].0 == k {
        assert forall|i: int| 0 <= i < u.len() implies p(u[i].1) by {
            if i > 0 {
                assert(u[i] == s[i]);
            }
        }
    } else if k < s[0].0 {
        assert forall|i: int| 0 <= i < u.len() implies p(u[i].1) by {
            if i > 0 {
                assert(u[i] == s[i - 1]);
            }
        }
    } else {
        lemma_id_set_pred(s.drop_first(), k, v, p);
        assert forall|i: int| 0 <= i < u.len() implies p(u[i].1) by {
            if i > 0 {
                assert(u[i] == id_set(s.drop_first(), k, v)[i - 1]);
            }
        }
    }
}

/// Binding one entry keeps keys sorted... is proved in the executable map;
/// at the specification level, sortedness of every phase's result follows
/// from the executable functions' contracts, so no separate lemma is needed.
impl Speedwalk {
    /// Phase one of `after_edit`: the derived store reset to a copy of the
    /// original.
    fn reset_derived(&mut self)
        ensures
            final(self).derived_nodes@ == old(self).original_nodes@,
            final(self).derived_ways@ == old(self).original_ways@,
            final(self).original_nodes == old(self).original_nodes,
            final(self).original_ways == old(self).original_ways,
            final(self).edits == old(self).edits,
            final(self).timestamp == old(self).timestamp,
    {
        self.derived_nodes = self.original_nodes.duplicate();
        self.derived_ways = self.original_ways.duplicate();
    }

    /// Phase two: create all new nodes and ways, in log order, before any
    /// mutation, so later commands can reference earlier synthetic geometry.
    fn apply_creations_exec(&mut self)
        requires
            old(self).derived_nodes.wf(),
            old(self).derived_ways.wf(),
            nodes_tags_wf(old(self).derived_nodes@),
            ways_tags_wf(old(self).derived_ways@),
            ways_len_ok(old(self).derived_ways@),
            conseqs_wf(old(self).edits.spec_consequences()),
        ensures
            final(self).derived_nodes@ == apply_creations(
                StoreV { nodes: old(self).derived_nodes@, ways: old(self).derived_ways@ },
                old(self).edits.spec_consequences(),
            ).nodes,
            final(self).derived_ways@ == apply_creations(
                StoreV { nodes: old(self).derived_nodes@, ways: old(self).derived_ways@ },
                old(self).edits.spec_consequences(),
            ).ways,
            final(self).derived_nodes.wf(),
            final(self).derived_ways.wf(),
            nodes_tags_wf(final(self).derived_nodes@),
            ways_tags_wf(final(self).derived_ways@),
            ways_len_ok(final(self).derived_ways@),
            final(self).original_nodes == old(self).original_nodes,
            final(self).original_ways == old(self).original_ways,
            final(self).edits == old(self).edits,
            final(self).timestamp == old(self).timestamp,
    {
        let ghost orig = StoreV { nodes: self.derived_nodes@, ways: self.derived_ways@ };
        let ghost cs = self.edits.spec_consequences();
        let n_cs = self.edits.consequences.len();
        let mut ci: usize = 0;
        proof {
            assert(cs.subrange(0, 0) =~= Seq::<ConsequenceView>::empty());
        }
        while ci < n_cs
            invariant
                n_cs == cs.len(),
                cs == self.edits.spec_consequences(),
                conseqs_wf(cs),
                ci <= n_cs,
                self.derived_nodes@ == apply_creations(orig, cs.subrange(0, ci as int)).nodes,
                self.derived_ways@ == apply_creations(orig, cs.subrange(0, ci as int)).ways,
                self.derived_nodes.wf(),
                self.derived_ways.wf(),
                nodes_tags_wf(self.derived_nodes@),
                ways_tags_wf(self.derived_ways@),
                ways_len_ok(self.derived_ways@),
                self.original_nodes == old(self).original_nodes,
                self.original_ways == old(self).original_ways,
                self.edits == old(self).edits,
                self.timestamp == old(self).timestamp,
            decreases n_cs - ci,
        {
            proof {
                let cur = cs.subrange(0, ci as int + 1);
                assert(cur.drop_last() =~= cs.subrange(0, ci as int));
                assert(cur.last() == cs[ci as int]);
            }
            let ghost base = apply_creations(orig, cs.subrange(0, ci as int));
            let ghost cv = cs[ci as int];

            let n_nodes = self.edits.consequences[ci].new_nodes.len();
            let mut k: usize = 0;
            proof {
                assert(cv.new_nodes.subrange(0, 0) =~= Seq::<(i64, NodeView)>::empty());
            }
            while k < n_nodes
                invariant
                    ci < cs.len(),
                    n_cs == cs.len(),
                    cs == self.edits.spec_consequences(),
                    conseqs_wf(cs),
                    cv == cs[ci as int],
                    n_nodes == cv.new_nodes.len(),
                    k <= n_nodes,
                    self.derived_nodes@ == id_set_all(base.nodes, cv.new_nodes.subrange(0, k as int)),
                    self.derived_ways@ == base.ways,
                    self.derived_nodes.wf(),
                    self.derived_ways.wf(),
                    nodes_tags_wf(self.derived_nodes@),
                    ways_tags_wf(self.derived_ways@),
                    ways_len_ok(self.derived_ways@),
                    self.original_nodes == old(self).original_nodes,
                    self.original_ways == old(self).original_ways,
                    self.edits == old(self).edits,
                    self.timestamp == old(self).timestamp,
                decreases n_nodes - k,
            {
                proof {
                    let cur = cv.new_nodes.subrange(0, k as int + 1);
                    assert(cur.drop_last() =~= cv.new_nodes.subrange(0, k as int));
                    assert(cur.last() == cv.new_nodes[k as int]);
                }
                let (key, nd) = {
                    let e = &self.edits.consequences[ci].new_nodes[k];
                    (e.0, e.1.dup())
                };
                let ghost pre = self.derived_nodes@;
                self.derived_nodes.insert(key, nd);
                proof {
                    assert(cv.new_nodes[k as int] == (key, nd@));
                    lemma_id_set_pred(
                        pre,
                        key,
                        nd@,
                        |n: NodeView| tags_wf(n.tags),
                    );
                }
                k += 1;
            }
            proof {
                assert(cv.new_nodes.subrange(0, n_nodes as int) =~= cv.new_nodes);
            }

            let n_ways = self.edits.consequences[ci].new_ways.len();
            let mut k: usize = 0;
            proof {
                assert(cv.new_ways.subrange(0, 0) =~= Seq::<(i64, WayView)>::empty());
            }
            while k < n_ways
                invariant
                    ci < cs.len(),
                    n_cs == cs.len(),
                    cs == self.edits.spec_consequences(),
                    conseqs_wf(cs),
                    cv == cs[ci as int],
                    n_ways == cv.new_ways.len(),
                    k <= n_ways,
                    self.derived_nodes@ == id_set_all(base.nodes, cv.new_nodes),
                    self.derived_ways@ == id_set_all(base.ways, cv.new_ways.subrange(0, k as int)),
                    self.derived_nodes.wf(),
                    self.derived_ways.wf(),
                    nodes_tags_wf(self.derived_nodes@),
                    ways_tags_wf(self.derived_ways@),
                    ways_len_ok(self.derived_ways@),
                    self.original_nodes == old(self).original_nodes,
                    self.original_ways == old(self).original_ways,
                    self.edits == old(self).edits,
                    self.timestamp == old(self).timestamp,
                decreases n_ways - k,
            {
                proof {
                    let cur = cv.new_ways.subrange(0, k as int + 1);
                    assert(cur.drop_last() =~= cv.new_ways.subrange(0, k as int));
                    assert(cur.last() == cv.new_ways[k as int]);
                }
                let (key, w) = {
                    let e = &self.edits.consequences[ci].new_ways[k];
                    (e.0, e.1.dup())
                };
                let ghost pre = self.derived_ways@;
                self.derived_ways.insert(key, w);
                proof {
                    assert(cv.new_ways[k as int] == (key, w@));
                    lemma_id_set_pred(pre, key, w@, |x: WayView| tags_wf(x.tags));
                    lemma_id_set_pred(
                        pre,
                        key,
                        w@,
                        |x: WayView| x.linestring.len() == x.node_ids.len(),
                    );
                }
                k += 1;
            }
            proof {
                assert(cv.new_ways.subrange(0, n_ways as int) =~= cv.new_ways);
            }
            ci += 1;
        }
        proof {
            assert(cs.subrange(0, n_cs as int) =~= cs);
        }
    }
}

impl Speedwalk {
    /// Phase three: tag mutations per target way, in log order, with the
    /// way reclassified from its new tags.
    fn apply_tag_changes_exec(&mut self)
        requires
            old(self).derived_ways.wf(),
            ways_tags_wf(old(self).derived_ways@),
            ways_len_ok(old(self).derived_ways@),
        ensures
            final(self).derived_ways@ == apply_all_tag_changes(
                old(self).derived_ways@,
                old(self).edits.spec_consequences(),
            ),
            final(self).derived_ways.wf(),
            ways_tags_wf(final(self).derived_ways@),
            ways_len_ok(final(self).derived_ways@),
            final(self).derived_nodes == old(self).derived_nodes,
            final(self).original_nodes == old(self).original_nodes,
            final(self).original_ways == old(self).original_ways,
            final(self).edits == old(self).edits,
            final(self).timestamp == old(self).timestamp,
    {
        let ghost ways_in = self.derived_ways@;
        let ghost cs = self.edits.spec_consequences();
        let n_cs = self.edits.consequences.len();
        let mut ci: usize = 0;
        proof {
            assert(cs.subrange(0, 0) =~= Seq::<ConsequenceView>::empty());
        }
        while ci < n_cs
            invariant
                n_cs == cs.len(),
                cs == self.edits.spec_consequences(),
                ci <= n_cs,
                self.derived_ways@ == apply_all_tag_changes(ways_in, cs.subrange(0, ci as int)),
                self.derived_ways.wf(),
                ways_tags_wf(self.derived_ways@),
                ways_len_ok(self.derived_ways@),
                self.derived_nodes == old(self).derived_nodes,
                self.original_nodes == old(self).original_nodes,
                self.original_ways == old(self).original_ways,
                self.edits == old(self).edits,
                self.timestamp == old(self).timestamp,
            decreases n_cs - ci,
        {
            proof {
                let cur = cs.subrange(0, ci as int + 1);
                assert(cur.drop_last() =~= cs.subrange(0, ci as int));
                assert(cur.last() == cs[ci as int]);
            }
            let ghost base = apply_all_tag_changes(ways_in, cs.subrange(0, ci as int));
            let ghost cv = cs[ci as int];
            let n_tc = self.edits.consequences[ci].tag_changes.len();
            let mut k: usize = 0;
            proof {
                assert(cv.tag_changes.subrange(0, 0) =~= Seq::<(i64, Seq<TagCmdView>)>::empty());
            }
            while k < n_tc
                invariant
                    ci < cs.len(),
                    n_cs == cs.len(),
                    cs == self.edits.spec_consequences(),
                    cv == cs[ci as int],
                    n_tc == cv.tag_changes.len(),
                    k <= n_tc,
                    self.derived_ways@ == apply_tag_changes(
                        base,
                        cv.tag_changes.subrange(0, k as int),
                    ),
                    self.derived_ways.wf(),
                    ways_tags_wf(self.derived_ways@),
                    ways_len_ok(self.derived_ways@),
                    self.derived_nodes == old(self).derived_nodes,
                    self.original_nodes == old(self).original_nodes,
                    self.original_ways == old(self).original_ways,
                    self.edits == old(self).edits,
                    self.timestamp == old(self).timestamp,
                decreases n_tc - k,
            {
                proof {
                    let cur = cv.tag_changes.subrange(0, k as int + 1);
                    assert(cur.drop_last() =~= cv.tag_changes.subrange(0, k as int));
                    assert(cur.last() == cv.tag_changes[k as int]);
                }
                let wid = self.edits.consequences[ci].tag_changes[k].0;
                proof {
                    assert(cv.tag_changes[k as int].0 == wid);
                }
                let found = match self.derived_ways.get(wid) {
                    Some(w) => Some(w.dup()),
                    None => None,
                };
                match found {
                    Some(mut w2) => {
                        let ghost wv = w2@;
                        let ghost pre = self.derived_ways@;
                        proof {
                            assert(id_find(pre, wid) == Some(wv));
                            lemma_id_find_pos(pre, wid);
                        }
                        let (new_tags, new_kind) = {
                            let cmds = &self.edits.consequences[ci].tag_changes[k].1;
                            let mut t = w2.tags;
                            proof {
                                assert(cmds@.map_values(|c: TagCmd| c@) == cv.tag_changes[
                                    k as int].1);
                                assert(tags_wf(t@)) by {
                                    let j = choose|j: int|
                                        0 <= j < pre.len() && pre[j].0 == wid && pre[j].1 == wv;
                                    assert(tags_wf(pre[j].1.tags));
                                }
                            }
                            t.apply_cmds(cmds);
                            let kd = Kind::classify(&t);
                            (t, kd)
                        };
                        w2.tags = new_tags;
                        w2.kind = new_kind;
                        w2.modified = true;
                        proof {
                            assert(w2@ == retag_way(wv, cv.tag_changes[k as int].1));
                        }
                        self.derived_ways.insert(wid, w2);
                        proof {
                            lemma_id_set_pred(pre, wid, w2@, |x: WayView| tags_wf(x.tags));
                            lemma_id_set_pred(
                                pre,
                                wid,
                                w2@,
                                |x: WayView| x.linestring.len() == x.node_ids.len(),
                            );
                        }
                    },
                    None => {},
                }
                k += 1;
            }
            proof {
                assert(cv.tag_changes.subrange(0, n_tc as int) =~= cv.tag_changes);
            }
            ci += 1;
        }
        proof {
            assert(cs.subrange(0, n_cs as int) =~= cs);
        }
    }

    /// Phase four: node-list replacements per target way, in log order, with
    /// each way's polyline rebuilt from the node store.
    fn apply_node_repls_exec(&mut self)
        requires
            old(self).derived_ways.wf(),
            ways_tags_wf(old(self).derived_ways@),
        ensures
            final(self).derived_ways@ == apply_all_node_repls(
                old(self).derived_nodes@,
                old(self).derived_ways@,
                old(self).edits.spec_consequences(),
            ),
            final(self).derived_ways.wf(),
            ways_tags_wf(final(self).derived_ways@),
            ways_len_ok(final(self).derived_ways@) || !ways_len_ok(old(self).derived_ways@),
            final(self).derived_nodes == old(self).derived_nodes,
            final(self).original_nodes == old(self).original_nodes,
            final(self).original_ways == old(self).original_ways,
            final(self).edits == old(self).edits,
            final(self).timestamp == old(self).timestamp,
    {
        let ghost nodes_in = self.derived_nodes@;
        let ghost ways_in = self.derived_ways@;
        let ghost cs = self.edits.spec_consequences();
        let n_cs = self.edits.consequences.len();
        let mut ci: usize = 0;
        proof {
            assert(cs.subrange(0, 0) =~= Seq::<ConsequenceView>::empty());
        }
        while ci < n_cs
            invariant
                n_cs == cs.len(),
                cs == self.edits.spec_consequences(),
                ci <= n_cs,
                self.derived_ways@ == apply_all_node_repls(
                    nodes_in,
                    ways_in,
                    cs.subrange(0, ci as int),
                ),
                self.derived_ways.wf(),
                ways_tags_wf(self.derived_ways@),
                ways_len_ok(self.derived_ways@) || !ways_len_ok(ways_in),
                self.derived_nodes == old(self).derived_nodes,
                self.derived_nodes@ == nodes_in,
                self.original_nodes == old(self).original_nodes,
                self.original_ways == old(self).original_ways,
                self.edits == old(self).edits,
                self.timestamp == old(self).timestamp,
            decreases n_cs - ci,
        {
            proof {
                let cur = cs.subrange(0, ci as int + 1);
                assert(cur.drop_last() =~= cs.subrange(0, ci as int));
                assert(cur.last() == cs[ci as int]);
            }
            let ghost base = apply_all_node_repls(nodes_in, ways_in, cs.subrange(0, ci as int));
            let ghost cv = cs[ci as int];
            let n_nr = self.edits.consequences[ci].node_replacements.len();
            let mut k: usize = 0;
            proof {
                assert(cv.node_replacements.subrange(0, 0) =~= Seq::<(i64, Seq<i64>)>::empty());
            }
            while k < n_nr
                invariant
                    ci < cs.len(),
                    n_cs == cs.len(),
                    cs == self.edits.spec_consequences(),
                    cv == cs[ci as int],
                    n_nr == cv.node_replacements.len(),
                    k <= n_nr,
                    self.derived_ways@ == apply_node_repls(
                        nodes_in,
                        base,
                        cv.node_replacements.subrange(0, k as int),
                    ),
                    self.derived_ways.wf(),
                    ways_tags_wf(self.derived_ways@),
                    ways_len_ok(self.derived_ways@) || !ways_len_ok(ways_in),
                    self.derived_nodes == old(self).derived_nodes,
                    self.derived_nodes@ == nodes_in,
                    self.original_nodes == old(self).original_nodes,
                    self.original_ways == old(self).original_ways,
                    self.edits == old(self).edits,
                    self.timestamp == old(self).timestamp,
                decreases n_nr - k,
            {
                proof {
                    let cur = cv.node_replacements.subrange(0, k as int + 1);
                    assert(cur.drop_last() =~= cv.node_replacements.subrange(0, k as int));
                    assert(cur.last() == cv.node_replacements[k as int]);
                }
                let wid = self.edits.consequences[ci].node_replacements[k].0;
                proof {
                    assert(cv.node_replacements[k as int].0 == wid);
                }
                let found = match self.derived_ways.get(wid) {
                    Some(w) => Some(w.dup()),
                    None => None,
                };
                match found {
                    Some(mut w2) => {
                        let ghost wv = w2@;
                        let ghost pre = self.derived_ways@;
                        proof {
                            assert(id_find(pre, wid) == Some(wv));
                            lemma_id_find_pos(pre, wid);
                        }
                        let (ids, ls) = {
                            let id_src = &self.edits.consequences[ci].node_replacements[k].1;
                            let ids = crate::store::copy_id_vec(id_src);
                            let ls = self.lookup_linestring(&ids);
                            (ids, ls)
                        };
                        proof {
                            assert(ids@ == cv.node_replacements[k as int].1);
                        }
                        w2.node_ids = ids;
                        w2.linestring = ls;
                        w2.modified = true;
                        proof {
                            assert(w2@ == rewire_way(nodes_in, wv, cv.node_replacements[
                                k as int].1));
                        }
                        self.derived_ways.insert(wid, w2);
                        proof {
                            lemma_id_set_pred(pre, wid, w2@, |x: WayView| tags_wf(x.tags));
                            if ways_len_ok(ways_in) {
                                lemma_id_set_pred(
                                    pre,
                                    wid,
                                    w2@,
                                    |x: WayView| x.linestring.len() == x.node_ids.len(),
                                );
                            }
                        }
                    },
                    None => {},
                }
                k += 1;
            }
            proof {
                assert(cv.node_replacements.subrange(0, n_nr as int) =~= cv.node_replacements);
            }
            ci += 1;
        }
        proof {
            assert(cs.subrange(0, n_cs as int) =~= cs);
        }
    }

    /// The polyline a node-id list denotes in the current derived store.
    fn lookup_linestring(&self, ids: &Vec<i64>) -> (r: Vec<(i64, i64)>)
        ensures
            r@ == linestring_of(self.derived_nodes@, ids@),
    {
        let n = ids.len();
        let mut r: Vec<(i64, i64)> = Vec::new();
        let mut i: usize = 0;
        while i < n
            invariant
                n == ids@.len(),
                i <= n,
                r@.len() == i,
                forall|j: int|
                    0 <= j < i ==> r@[j] == (match id_find(self.derived_nodes@, #[trigger] ids@[j]) {
                        Some(nd) => (nd.x, nd.y),
                        None => (0i64, 0i64),
                    }),
            decreases n - i,
        {
            let pt = match self.derived_nodes.get(ids[i]) {
                Some(nd) => (nd.x, nd.y),
                None => (0, 0),
            };
            r.push(pt);
            i += 1;
        }
        proof {
            assert(r@ =~= linestring_of(self.derived_nodes@, ids@));
        }
        r
    }
}

/// A key that `id_find` resolves sits at some entry.
pub proof fn lemma_id_find_pos<T>(s: Seq<(i64, T)>, k: i64)
    requires
        id_find(s, k) is Some,
    ensures
        exists|i: int| 0 <= i < s.len() && s[i].0 == k && s[i].1 == id_find(s, k).unwrap(),
    decreases s.len(),
{
    if s.len() > 0 {
        if s[0].0 == k {
            assert(s[0].0 == k && s[0].1 == id_find(s, k).unwrap());
        } else {
            lemma_id_find_pos(s.drop_first(), k);
            let i = choose|i: int|
                0 <= i < s.drop_first().len() && s.drop_first()[i].0 == k && s.drop_first()[i].1
                    == id_find(s.drop_first(), k).unwrap();
            assert(s[i + 1].0 == k && s[i + 1].1 == id_find(s, k).unwrap());
        }
    }
}

impl Speedwalk {
    /// The ways referencing node `n`, in entry order of the way store.
    fn membership_exec(&self, n: i64) -> (r: Vec<i64>)
        ensures
            r@ == membership(self.derived_ways@, n),
    {
        let ghost ways = self.derived_ways@;
        let count = self.derived_ways.len();
        let mut r: Vec<i64> = Vec::new();
        let mut i: usize = 0;
        proof {
            assert(ways.subrange(0, 0) =~= Seq::<(i64, WayView)>::empty());
            assert(r@ =~= membership(ways.subrange(0, 0), n));
        }
        while i < count
            invariant
                count == ways.len(),
                self.derived_ways@ == ways,
                i <= count,
                r@ == membership(ways.subrange(0, i as int), n),
            decreases count - i,
        {
            proof {
                let cur = ways.subrange(0, i as int + 1);
                assert(cur.drop_last() =~= ways.subrange(0, i as int));
                assert(cur.last() == ways[i as int]);
            }
            let wid = self.derived_ways.key_at(i);
            let contains = contains_id(&self.derived_ways.value_at(i).node_ids, n);
            if contains {
                r.push(wid);
                proof {
                    assert(r@ =~= membership(ways.subrange(0, i as int), n) + seq![wid]);
                }
            } else {
                proof {
                    assert(r@ =~= membership(ways.subrange(0, i as int), n) + Seq::<
                        i64,
                    >::empty());
                }
            }
            i += 1;
        }
        proof {
            assert(ways.subrange(0, count as int) =~= ways);
        }
        r
    }

    /// Phase five: rebuild every node's way membership from scratch and
    /// clear problem lists, on nodes and ways, ready for the detector.
    fn refresh_exec(&mut self)
        ensures
            final(self).derived_nodes@ == refresh_nodes(
                StoreV { nodes: old(self).derived_nodes@, ways: old(self).derived_ways@ },
            ),
            final(self).derived_ways@ == clear_way_problems(old(self).derived_ways@),
            final(self).original_nodes == old(self).original_nodes,
            final(self).original_ways == old(self).original_ways,
            final(self).edits == old(self).edits,
            final(self).timestamp == old(self).timestamp,
    {
        let ghost nodes0 = self.derived_nodes@;
        let ghost ways0 = self.derived_ways@;
        let ghost sv = StoreV { nodes: nodes0, ways: ways0 };

        let n_nodes = self.derived_nodes.len();
        let mut i: usize = 0;
        while i < n_nodes
            invariant
                n_nodes == self.derived_nodes@.len(),
                nodes0.len() == n_nodes,
                i <= n_nodes,
                sv == (StoreV { nodes: nodes0, ways: ways0 }),
                self.derived_ways@ == ways0,
                self.derived_ways == old(self).derived_ways,
                forall|j: int| i <= j < n_nodes ==> self.derived_nodes@[j] == nodes0[j],
                forall|j: int| 0 <= j < i ==> self.derived_nodes@[j] == refresh_nodes(sv)[j],
                self.original_nodes == old(self).original_nodes,
                self.original_ways == old(self).original_ways,
                self.edits == old(self).edits,
                self.timestamp == old(self).timestamp,
            decreases n_nodes - i,
        {
            proof {
                assert(self.derived_nodes@[i as int] == nodes0[i as int]);
            }
            let nid = self.derived_nodes.key_at(i);
            let mems = self.membership_exec(nid);
            let mut nd = self.derived_nodes.value_at(i).dup();
            nd.way_ids = mems;
            nd.problems = Vec::new();
            proof {
                assert(nd@.problems =~= Seq::<crate::store::ProblemView>::empty());
                assert(nd@.way_ids == membership(sv.ways, nodes0[i as int].0));
                assert(nd@ == (NodeView {
                    way_ids: membership(sv.ways, nodes0[i as int].0),
                    problems: Seq::empty(),
                    ..nodes0[i as int].1
                }));
            }
            self.derived_nodes.set_value_at(i, nd);
            proof {
                assert(self.derived_nodes@[i as int] == (nodes0[i as int].0, nd@));
                assert(refresh_nodes(sv)[i as int] == (
                    nodes0[i as int].0,
                    NodeView {
                        way_ids: membership(sv.ways, nodes0[i as int].0),
                        problems: Seq::empty(),
                        ..nodes0[i as int].1
                    },
                ));
                assert(self.derived_nodes@[i as int] == refresh_nodes(sv)[i as int]);
            }
            i += 1;
        }
        proof {
            assert(self.derived_nodes@ =~= refresh_nodes(sv));
        }

        let n_ways = self.derived_ways.len();
        let mut i: usize = 0;
        while i < n_ways
            invariant
                n_ways == self.derived_ways@.len(),
                ways0.len() == n_ways,
                i <= n_ways,
                sv == (StoreV { nodes: nodes0, ways: ways0 }),
                self.derived_nodes@ == refresh_nodes(sv),
                forall|j: int| i <= j < n_ways ==> self.derived_ways@[j] == ways0[j],
                forall|j: int| 0 <= j < i ==> self.derived_ways@[j] == clear_way_problems(ways0)[j],
                self.original_nodes == old(self).original_nodes,
                self.original_ways == old(self).original_ways,
                self.edits == old(self).edits,
                self.timestamp == old(self).timestamp,
            decreases n_ways - i,
        {
            let mut w = self.derived_ways.value_at(i).dup();
            w.problems = Vec::new();
            proof {
                assert(w@.problems =~= Seq::<crate::store::ProblemView>::empty());
            }
            self.derived_ways.set_value_at(i, w);
            proof {
                assert(self.derived_ways@[i as int] == clear_way_problems(ways0)[i as int]);
            }
            i += 1;
        }
        proof {
            assert(self.derived_ways@ =~= clear_way_problems(ways0));
        }
    }

    /// The single recomputation point: reset the derived store to the
    /// original, apply all creations, then all tag mutations, then all
    /// node-list replacements, rebuild memberships, and re-run the problem
    /// detector. The derived store afterwards is a pure function of the
    /// original store and the log.
    pub fn after_edit(&mut self)
        requires
            old(self).original_nodes.wf(),
            old(self).original_ways.wf(),
            nodes_tags_wf(old(self).original_nodes@),
            ways_tags_wf(old(self).original_ways@),
            ways_len_ok(old(self).original_ways@),
            conseqs_wf(old(self).edits.spec_consequences()),
        ensures
            final(self).derived_nodes@ == materialize(
                StoreV { nodes: old(self).original_nodes@, ways: old(self).original_ways@ },
                old(self).edits.spec_consequences(),
            ).nodes,
            final(self).derived_ways@ == materialize(
                StoreV { nodes: old(self).original_nodes@, ways: old(self).original_ways@ },
                old(self).edits.spec_consequences(),
            ).ways,
            final(self).derived_nodes.wf(),
            final(self).derived_ways.wf(),
            ways_len_ok(final(self).derived_ways@),
            final(self).original_nodes == old(self).original_nodes,
            final(self).original_ways == old(self).original_ways,
            final(self).edits == old(self).edits,
            final(self).timestamp == old(self).timestamp,
    {
        self.reset_derived();
        self.apply_creations_exec();
        self.apply_tag_changes_exec();
        self.apply_node_repls_exec();
        let ghost nodes4 = self.derived_nodes@;
        let ghost ways4 = self.derived_ways@;
        let ghost nodes4_sorted = self.derived_nodes.wf();
        let ghost ways4_sorted = self.derived_ways.wf();
        self.refresh_exec();
        let ghost nodes5 = self.derived_nodes@;
        let ghost ways5 = self.derived_ways@;
        proof {
            assert(nodes4_sorted);
            assert(ways4_sorted);
            assert forall|a: int, b: int|
                0 <= a < b < nodes5.len() implies nodes5[a].0 < nodes5[b].0 by {
                assert(nodes5[a].0 == nodes4[a].0);
                assert(nodes5[b].0 == nodes4[b].0);
                assert(nodes4[a].0 < nodes4[b].0);
            }
            assert forall|a: int, b: int|
                0 <= a < b < ways5.len() implies ways5[a].0 < ways5[b].0 by {
                assert(ways5[a].0 == ways4[a].0);
                assert(ways5[b].0 == ways4[b].0);
                assert(ways4[a].0 < ways4[b].0);
            }
            assert forall|i: int|
                0 <= i < ways5.len() implies (#[trigger] ways5[i]).1.linestring.len()
                    == ways5[i].1.node_ids.len() by {
                assert(ways5[i].1.linestring == ways4[i].1.linestring);
                assert(ways5[i].1.node_ids == ways4[i].1.node_ids);
                assert(ways4[i].1.linestring.len() == ways4[i].1.node_ids.len());
            }
        }
        self.recalculate_problems();
        proof {
            let nodes6 = self.derived_nodes@;
            let ways6 = self.derived_ways@;
            assert forall|a: int, b: int|
                0 <= a < b < nodes6.len() implies nodes6[a].0 < nodes6[b].0 by {
                assert(nodes6[a].0 == nodes5[a].0);
                assert(nodes6[b].0 == nodes5[b].0);
            }
            assert forall|a: int, b: int|
                0 <= a < b < ways6.len() implies ways6[a].0 < ways6[b].0 by {
                assert(ways6[a].0 == ways5[a].0);
                assert(ways6[b].0 == ways5[b].0);
            }
            assert forall|i: int|
                0 <= i < ways6.len() implies (#[trigger] ways6[i]).1.linestring.len()
                    == ways6[i].1.node_ids.len() by {
                assert(ways6[i].1.linestring == ways5[i].1.linestring);
                assert(ways6[i].1.node_ids == ways5[i].1.node_ids);
            }
        }
    }

    /// Remove the last command from the log and replay the remainder from
    /// scratch. With an empty log this only recomputes.
    pub fn edit_undo(&mut self)
        requires
            old(self).original_nodes.wf(),
            old(self).original_ways.wf(),
            nodes_tags_wf(old(self).original_nodes@),
            ways_tags_wf(old(self).original_ways@),
            ways_len_ok(old(self).original_ways@),
            conseqs_wf(old(self).edits.spec_consequences()),
            old(self).edits.user_commands@.len() == old(self).edits.consequences@.len(),
        ensures
            final(self).edits.spec_commands() == if old(self).edits.spec_commands().len() == 0 {
                old(self).edits.spec_commands()
            } else {
                old(self).edits.spec_commands().drop_last()
            },
            final(self).edits.spec_consequences() == if old(
                self,
            ).edits.spec_consequences().len() == 0 {
                old(self).edits.spec_consequences()
            } else {
                old(self).edits.spec_consequences().drop_last()
            },
            final(self).edits.user_commands@.len() == final(self).edits.consequences@.len(),
            final(self).derived_nodes@ == materialize(
                StoreV { nodes: old(self).original_nodes@, ways: old(self).original_ways@ },
                final(self).edits.spec_consequences(),
            ).nodes,
            final(self).derived_ways@ == materialize(
                StoreV { nodes: old(self).original_nodes@, ways: old(self).original_ways@ },
                final(self).edits.spec_consequences(),
            ).ways,
            final(self).original_nodes == old(self).original_nodes,
            final(self).original_ways == old(self).original_ways,
            final(self).timestamp == old(self).timestamp,
    {
        let len = self.edits.user_commands.len();
        if len > 0 {
            self.edits.user_commands.pop();
            self.edits.consequences.pop();
            proof {
                assert(self.edits.spec_commands() =~= old(self).edits.spec_commands().drop_last());
                assert(self.edits.spec_consequences() =~= old(
                    self,
                ).edits.spec_consequences().drop_last());
                assert(conseqs_wf(self.edits.spec_consequences())) by {
                    let cs = self.edits.spec_consequences();
                    let cs0 = old(self).edits.spec_consequences();
                    assert forall|i: int| 0 <= i < cs.len() implies conseq_wf(cs[i]) by {
                        assert(cs[i] == cs0[i]);
                    }
                }
            }
        }
        self.after_edit();
    }

    /// Empty the log and recompute: the derived store returns to the
    /// original plus recomputed memberships and problems.
    pub fn edit_clear(&mut self)
        requires
            old(self).original_nodes.wf(),
            old(self).original_ways.wf(),
            nodes_tags_wf(old(self).original_nodes@),
            ways_tags_wf(old(self).original_ways@),
            ways_len_ok(old(self).original_ways@),
        ensures
            final(self).edits.spec_commands() == Seq::<UserCmdView>::empty(),
            final(self).edits.spec_consequences() == Seq::<ConsequenceView>::empty(),
            final(self).derived_nodes@ == materialize(
                StoreV { nodes: old(self).original_nodes@, ways: old(self).original_ways@ },
                Seq::<ConsequenceView>::empty(),
            ).nodes,
            final(self).derived_ways@ == materialize(
                StoreV { nodes: old(self).original_nodes@, ways: old(self).original_ways@ },
                Seq::<ConsequenceView>::empty(),
            ).ways,
            final(self).original_nodes == old(self).original_nodes,
            final(self).original_ways == old(self).original_ways,
            final(self).timestamp == old(self).timestamp,
    {
        self.edits = Edits::new();
        self.after_edit();
    }
}

/// Is `x` one of the identifiers in the list?
pub fn contains_id(v: &Vec<i64>, x: i64) -> (r: bool)
    ensures
        r == v@.contains(x),
{
    let n = v.len();
    let mut i: usize = 0;
    while i < n
        invariant
            n == v@.len(),
            i <= n,
            forall|j: int| 0 <= j < i ==> v@[j] != x,
        decreases n - i,
    {
        if v[i] == x {
            return true;
        }
        i += 1;
    }
    false
}

/// Why a command had no effect.
#[derive(Clone, Copy, Debug, PartialEq, Eq, Structural)]
pub enum EditError {
    /// The command names a way the derived store does not hold.
    UnknownWay,
    /// The geometry event does not fit the command or the store.
    BadEvent,
    /// Synthesis produced nothing for a single-target command.
    SynthesisFailed,
    /// No road was found to put the new crossing on.
    NoRoadForCrossing,
}

/// What the outside geometry engine computed for a command: nothing for
/// pure tag commands, synthesized geometry (or its failure) for synthesis
/// commands, and the target way and insertion index for a new crossing.
pub enum CmdEvent {
    Nothing,
    Geometry(Option<CreateNewGeometry>),
    CrossingTarget(Option<(i64, usize)>),
}

pub ghost enum CmdEventView {
    Nothing,
    Geometry(Option<CreateNewGeometryView>),
    CrossingTarget(Option<(i64, usize)>),
}

impl View for CmdEvent {
    type V = CmdEventView;

    open spec fn view(&self) -> CmdEventView {
        match self {
            CmdEvent::Nothing => CmdEventView::Nothing,
            CmdEvent::Geometry(g) => CmdEventView::Geometry(
                match g {
                    Some(gg) => Some(gg@),
                    None => None,
                },
            ),
            CmdEvent::CrossingTarget(t) => CmdEventView::CrossingTarget(*t),
        }
    }
}

/// The next synthetic identifier: negative, from a strictly increasing
/// counter.
pub open spec fn spec_new_id(c: u64) -> i64 {
    (-((c + 1) as int)) as i64
}

/// What applying one command yields: the consequence to log, the advanced
/// counter, and the error surfaced to the caller, if any.
pub ghost struct ApplyOut {
    pub conseq: ConsequenceView,
    pub counter: u64,
    pub err: Option<EditError>,
}

pub open spec fn apply_fail(counter: u64, e: EditError) -> ApplyOut {
    ApplyOut { conseq: ConsequenceView::empty(), counter, err: Some(e) }
}

/// Remove commands for every existing tag key that starts with "sidewalk",
/// in tag order.
pub open spec fn sidewalk_removes(t: Seq<(Seq<char>, Seq<char>)>) -> Seq<TagCmdView>
    decreases t.len(),
{
    if t.len() == 0 {
        Seq::empty()
    } else {
        sidewalk_removes(t.drop_last()) + if crate::strutil::spec_starts_with(
            t.last().0,
            "sidewalk"@,
        ) {
            seq![TagCmdView::Remove(t.last().0)]
        } else {
            Seq::empty()
        }
    }
}

pub open spec fn assigns_of(pairs: Seq<(Seq<char>, Seq<char>)>) -> Seq<TagCmdView> {
    pairs.map_values(|p: (Seq<char>, Seq<char>)| TagCmdView::Assign(p.0, p.1))
}

/// Replacing a way's sidewalk tagging: clear old sidewalk keys, then set
/// the new pairs, in order.
pub open spec fn spec_set_tags(
    ways: Seq<(i64, WayView)>,
    wid: i64,
    pairs: Seq<(Seq<char>, Seq<char>)>,
    counter: u64,
) -> ApplyOut {
    match id_find(ways, wid) {
        Some(w) => ApplyOut {
            conseq: ConsequenceView {
                tag_changes: seq![(wid, sidewalk_removes(w.tags) + assigns_of(pairs))],
                node_replacements: Seq::empty(),
                new_nodes: Seq::empty(),
                new_ways: Seq::empty(),
            },
            counter,
            err: None,
        },
        None => apply_fail(counter, EditError::UnknownWay),
    }
}

/// Does this way qualify for an assumed sidewalk side: an untagged one-way
/// severance (or roundabout)?
pub open spec fn assume_tags_applies(t: Seq<(Seq<char>, Seq<char>)>) -> bool {
    &&& crate::store::spec_is_severance(t)
    &&& !crate::tags::tag_has(t, "sidewalk:both"@)
    &&& !crate::tags::tag_has(t, "sidewalk:left"@)
    &&& !crate::tags::tag_has(t, "sidewalk:right"@)
    &&& !crate::tags::tag_has(t, "sidewalk"@)
    &&& (crate::tags::tag_is(t, "oneway"@, "yes"@) || crate::tags::tag_is(
        t,
        "junction"@,
        "roundabout"@,
    ))
}

/// The tag changes an AssumeTags command produces: one sidewalk assignment
/// per qualifying way, in store order.
pub open spec fn assume_tag_targets(
    ways: Seq<(i64, WayView)>,
    drive_on_left: bool,
) -> Seq<(i64, Seq<TagCmdView>)>
    decreases ways.len(),
{
    if ways.len() == 0 {
        Seq::empty()
    } else {
        assume_tag_targets(ways.drop_last(), drive_on_left) + if assume_tags_applies(
            ways.last().1.tags,
        ) {
            seq![
                (
                    ways.last().0,
                    seq![
                        TagCmdView::Assign(
                            "sidewalk"@,
                            if drive_on_left {
                                "left"@
                            } else {
                                "right"@
                            },
                        ),
                    ],
                ),
            ]
        } else {
            Seq::empty()
        }
    }
}

/// A brand-new node from a synthesized point, carrying no tags.
pub open spec fn node_view_of_pt(pt: PtGeo) -> NodeView {
    NodeView {
        x: pt.x,
        y: pt.y,
        lon: pt.lon,
        lat: pt.lat,
        tags: Seq::empty(),
        version: 0,
        way_ids: Seq::empty(),
        modified: true,
        problems: Seq::empty(),
    }
}

/// A brand-new crossing node from a point and the command's tags.
pub open spec fn crossing_node_view(pt: PtGeo, tags: Seq<(Seq<char>, Seq<char>)>) -> NodeView {
    NodeView { tags, ..node_view_of_pt(pt) }
}

/// Adding a crossing node: create it and splice it into the target way at
/// the given position.
pub open spec fn spec_add_crossing(
    ways: Seq<(i64, WayView)>,
    pt: PtGeo,
    tags: Seq<(Seq<char>, Seq<char>)>,
    target: Option<(i64, usize)>,
    counter: u64,
) -> ApplyOut {
    match target {
        None => apply_fail(counter, EditError::NoRoadForCrossing),
        Some((wid, idx)) => match id_find(ways, wid) {
            Some(w) => if idx > w.node_ids.len() {
                apply_fail(counter, EditError::BadEvent)
            } else {
                let nid = spec_new_id(counter);
                ApplyOut {
                    conseq: ConsequenceView {
                        tag_changes: Seq::empty(),
                        node_replacements: seq![(wid, w.node_ids.insert(idx as int, nid))],
                        new_nodes: seq![(nid, crossing_node_view(pt, tags))],
                        new_ways: Seq::empty(),
                    },
                    counter: (counter + 1) as u64,
                    err: None,
                }
            },
            None => apply_fail(counter, EditError::UnknownWay),
        },
    }
}

/// Size cap on one synthesis batch, a practical input bound that keeps
/// identifier allocation within machine limits.
pub open spec fn spec_max_batch() -> int {
    0x100000
}

/// Validity of a geometry event against the derived store: every spliced
/// way exists, splice indices are strictly descending and in range, and the
/// batch is within size bounds.
pub open spec fn event_ok(g: CreateNewGeometryView, ways: Seq<(i64, WayView)>) -> bool {
    &&& g.modify_existing.len() <= spec_max_batch()
    &&& g.new_objects.len() <= spec_max_batch()
    &&& forall|i: int|
        0 <= i < g.new_objects.len() ==> (#[trigger] g.new_objects[i]).0.len() <= spec_max_batch()
    &&& forall|i: int|
        0 <= i < g.modify_existing.len() ==> {
            let (wid, pts) = #[trigger] g.modify_existing[i];
            &&& id_has(ways, wid)
            &&& pts.len() <= spec_max_batch()
            &&& forall|j: int|
                0 <= j < pts.len() ==> (#[trigger] pts[j]).1 <= id_find(
                    ways,
                    wid,
                ).unwrap().node_ids.len()
            &&& forall|j: int, k: int|
                0 <= j < k < pts.len() ==> (#[trigger] pts[j]).1 > (#[trigger] pts[k]).1
        }
}

/// The running state of geometry materialization: the identifier counter,
/// the map from new points to their node identifiers, and the records
/// accumulated so far.
pub ghost struct GAcc {
    pub counter: u64,
    pub mapping: Seq<((i64, i64), i64)>,
    pub new_nodes: Seq<(i64, NodeView)>,
    pub node_replacements: Seq<(i64, Seq<i64>)>,
    pub new_ways: Seq<(i64, WayView)>,
}

/// The node already created at this planar point, if any.
pub open spec fn pt_find(mapping: Seq<((i64, i64), i64)>, p: (i64, i64)) -> Option<i64>
    decreases mapping.len(),
{
    if mapping.len() == 0 {
        None
    } else if mapping[0].0 == p {
        Some(mapping[0].1)
    } else {
        pt_find(mapping.drop_first(), p)
    }
}

/// Splice points into one way's node list, highest index first: each point
/// becomes a new node, registered by position for reuse.
pub open spec fn g_modify_pts(acc: GAcc, ids: Seq<i64>, pts: Seq<(PtGeo, usize)>) -> (GAcc, Seq<
    i64,
>)
    decreases pts.len(),
{
    if pts.len() == 0 {
        (acc, ids)
    } else {
        let (a, cur) = g_modify_pts(acc, ids, pts.drop_last());
        let (pt, idx) = pts.last();
        let nid = spec_new_id(a.counter);
        (
            GAcc {
                counter: (a.counter + 1) as u64,
                mapping: a.mapping.push(((pt.x, pt.y), nid)),
                new_nodes: a.new_nodes.push((nid, node_view_of_pt(pt))),
                ..a
            },
            cur.insert(idx as int, nid),
        )
    }
}

/// All splices, in event order: each way's final node list is recorded as a
/// replacement.
pub open spec fn g_modify_all(
    acc: GAcc,
    ways: Seq<(i64, WayView)>,
    mes: Seq<(i64, Seq<(PtGeo, usize)>)>,
) -> GAcc
    decreases mes.len(),
{
    if mes.len() == 0 {
        acc
    } else {
        let a = g_modify_all(acc, ways, mes.drop_last());
        let (wid, pts) = mes.last();
        match id_find(ways, wid) {
            Some(w) => {
                let (a2, ids) = g_modify_pts(a, w.node_ids, pts);
                GAcc { node_replacements: a2.node_replacements.push((wid, ids)), ..a2 }
            },
            None => a,
        }
    }
}

/// The node list of one new polyline: points already seen reuse their node,
/// new points allocate one.
pub open spec fn g_object_pts(acc: GAcc, pts: Seq<PtGeo>) -> (GAcc, Seq<i64>)
    decreases pts.len(),
{
    if pts.len() == 0 {
        (acc, Seq::empty())
    } else {
        let (a, ids) = g_object_pts(acc, pts.drop_last());
        let pt = pts.last();
        match pt_find(a.mapping, (pt.x, pt.y)) {
            Some(nid) => (a, ids.push(nid)),
            None => {
                let nid = spec_new_id(a.counter);
                (
                    GAcc {
                        counter: (a.counter + 1) as u64,
                        mapping: a.mapping.push(((pt.x, pt.y), nid)),
                        new_nodes: a.new_nodes.push((nid, node_view_of_pt(pt))),
                        ..a
                    },
                    ids.push(nid),
                )
            },
        }
    }
}

/// All new ways, in event order, all sharing the batch's kind.
pub open spec fn g_objects(
    acc: GAcc,
    objs: Seq<(Seq<PtGeo>, Seq<(Seq<char>, Seq<char>)>)>,
    kind: Kind,
) -> GAcc
    decreases objs.len(),
{
    if objs.len() == 0 {
        acc
    } else {
        let a = g_objects(acc, objs.drop_last(), kind);
        let (pts, tags) = objs.last();
        let (a2, ids) = g_object_pts(a, pts);
        let wid = spec_new_id(a2.counter);
        GAcc {
            counter: (a2.counter + 1) as u64,
            new_ways: a2.new_ways.push(
                (
                    wid,
                    WayView {
                        node_ids: ids,
                        linestring: pts.map_values(|p: PtGeo| (p.x, p.y)),
                        tags,
                        version: 0,
                        kind,
                        modified: true,
                        problems: Seq::empty(),
                    },
                ),
            ),
            ..a2
        }
    }
}

/// Turn a geometry event into a consequence: splices first (so crossing
/// endpoints become nodes the new ways can reuse), then the new ways.
pub open spec fn spec_create_new_geometry(
    g: CreateNewGeometryView,
    ways: Seq<(i64, WayView)>,
    counter: u64,
) -> (ConsequenceView, u64) {
    let acc0 = GAcc {
        counter,
        mapping: Seq::empty(),
        new_nodes: Seq::empty(),
        node_replacements: Seq::empty(),
        new_ways: Seq::empty(),
    };
    let a = g_objects(g_modify_all(acc0, ways, g.modify_existing), g.new_objects, g.new_kind);
    (
        ConsequenceView {
            tag_changes: Seq::empty(),
            node_replacements: a.node_replacements,
            new_nodes: a.new_nodes,
            new_ways: a.new_ways,
        },
        a.counter,
    )
}

pub open spec fn spec_geom_apply(
    g: CreateNewGeometryView,
    ways: Seq<(i64, WayView)>,
    counter: u64,
) -> ApplyOut {
    if event_ok(g, ways) {
        let (c, k) = spec_create_new_geometry(g, ways, counter);
        ApplyOut { conseq: c, counter: k, err: None }
    } else {
        apply_fail(counter, EditError::BadEvent)
    }
}

/// New sidewalk ways for the chunks a split produced, after the first,
/// which replaces the base way's own node list.
pub open spec fn split_new_ways(
    nodes: Seq<(i64, NodeView)>,
    base: WayView,
    chunks: Seq<Seq<i64>>,
    counter: u64,
) -> (Seq<(i64, WayView)>, u64)
    decreases chunks.len(),
{
    if chunks.len() == 0 {
        (Seq::empty(), counter)
    } else {
        let (ws, c) = split_new_ways(nodes, base, chunks.drop_last(), counter);
        let wid = spec_new_id(c);
        (
            ws.push(
                (
                    wid,
                    WayView {
                        node_ids: chunks.last(),
                        linestring: linestring_of(nodes, chunks.last()),
                        tags: base.tags,
                        version: 0,
                        kind: base.kind,
                        modified: true,
                        problems: Seq::empty(),
                    },
                ),
            ),
            (c + 1) as u64,
        )
    }
}

/// Splitting at side roads: the base way keeps the first chunk, the rest
/// become new ways with the base way's tags.
pub open spec fn spec_split_apply(sv: StoreV, wid: i64, counter: u64) -> ApplyOut {
    let chunks = crate::split::spec_split_chunks(sv.nodes, sv.ways, wid);
    if chunks.len() == 0 {
        ApplyOut { conseq: ConsequenceView::empty(), counter, err: None }
    } else if chunks.len() > spec_max_batch() {
        apply_fail(counter, EditError::BadEvent)
    } else {
        let w = id_find(sv.ways, wid).unwrap();
        let (ws, c) = split_new_ways(sv.nodes, w, chunks.drop_first(), counter);
        ApplyOut {
            conseq: ConsequenceView {
                tag_changes: Seq::empty(),
                node_replacements: seq![(wid, chunks[0])],
                new_nodes: Seq::empty(),
                new_ways: ws,
            },
            counter: c,
            err: None,
        }
    }
}

/// The consequence of one command, as a pure function of the command, the
/// geometry event, the derived store it was applied against, and the
/// identifier counter.
pub open spec fn spec_apply(
    cmd: UserCmdView,
    ev: CmdEventView,
    sv: StoreV,
    counter: u64,
) -> ApplyOut {
    match cmd {
        UserCmdView::SetTags(wid, pairs) => match ev {
            CmdEventView::Nothing => spec_set_tags(sv.ways, wid, pairs, counter),
            _ => apply_fail(counter, EditError::BadEvent),
        },
        UserCmdView::AssumeTags(left) => match ev {
            CmdEventView::Nothing => ApplyOut {
                conseq: ConsequenceView {
                    tag_changes: assume_tag_targets(sv.ways, left),
                    node_replacements: Seq::empty(),
                    new_nodes: Seq::empty(),
                    new_ways: Seq::empty(),
                },
                counter,
                err: None,
            },
            _ => apply_fail(counter, EditError::BadEvent),
        },
        UserCmdView::SplitAtSideRoads(wid) => match ev {
            CmdEventView::Nothing => spec_split_apply(sv, wid, counter),
            _ => apply_fail(counter, EditError::BadEvent),
        },
        UserCmdView::MakeSidewalk(_wid, _side, _off, _trim) => match ev {
            CmdEventView::Geometry(Some(g)) => spec_geom_apply(g, sv.ways, counter),
            CmdEventView::Geometry(None) => apply_fail(counter, EditError::SynthesisFailed),
            _ => apply_fail(counter, EditError::BadEvent),
        },
        UserCmdView::ConnectCrossing(_nid) => match ev {
            CmdEventView::Geometry(Some(g)) => spec_geom_apply(g, sv.ways, counter),
            CmdEventView::Geometry(None) => apply_fail(counter, EditError::SynthesisFailed),
            _ => apply_fail(counter, EditError::BadEvent),
        },
        UserCmdView::MakeAllSidewalks(_sev) => match ev {
            CmdEventView::Geometry(Some(g)) => spec_geom_apply(g, sv.ways, counter),
            CmdEventView::Geometry(None) => ApplyOut {
                conseq: ConsequenceView::empty(),
                counter,
                err: None,
            },
            _ => apply_fail(counter, EditError::BadEvent),
        },
        UserCmdView::ConnectAllCrossings => match ev {
            CmdEventView::Geometry(Some(g)) => spec_geom_apply(g, sv.ways, counter),
            CmdEventView::Geometry(None) => ApplyOut {
                conseq: ConsequenceView::empty(),
                counter,
                err: None,
            },
            _ => apply_fail(counter, EditError::BadEvent),
        },
        UserCmdView::AddCrossing(pt, tags) => match ev {
            CmdEventView::CrossingTarget(t) => spec_add_crossing(sv.ways, pt, tags, t, counter),
            _ => apply_fail(counter, EditError::BadEvent),
        },
    }
}

impl Edits {
    /// Allocate the next synthetic node identifier.
    fn new_node_id(&mut self) -> (r: i64)
        requires
            old(self).id_counter < 0x4000_0000_0000_0000,
        ensures
            final(self).id_counter == old(self).id_counter + 1,
            r == spec_new_id(old(self).id_counter),
            final(self).user_commands == old(self).user_commands,
            final(self).consequences == old(self).consequences,
    {
        self.id_counter = self.id_counter + 1;
        let r = -(self.id_counter as i64);
        proof {
            assert(r == spec_new_id(old(self).id_counter));
        }
        r
    }

    /// Allocate the next synthetic way identifier, from the same counter.
    fn new_way_id(&mut self) -> (r: i64)
        requires
            old(self).id_counter < 0x4000_0000_0000_0000,
        ensures
            final(self).id_counter == old(self).id_counter + 1,
            r == spec_new_id(old(self).id_counter),
            final(self).user_commands == old(self).user_commands,
            final(self).consequences == old(self).consequences,
    {
        self.id_counter = self.id_counter + 1;
        let r = -(self.id_counter as i64);
        proof {
            assert(r == spec_new_id(old(self).id_counter));
        }
        r
    }
}

/// The node already created at this planar point, if any.
fn pt_lookup(mapping: &Vec<((i64, i64), i64)>, p: (i64, i64)) -> (r: Option<i64>)
    ensures
        r == pt_find(mapping@, p),
{
    let n = mapping.len();
    let mut i: usize = 0;
    proof {
        assert(mapping@.skip(0) =~= mapping@);
    }
    while i < n
        invariant
            n == mapping@.len(),
            i <= n,
            pt_find(mapping@, p) == pt_find(mapping@.skip(i as int), p),
        decreases n - i,
    {
        proof {
            assert(mapping@.skip(i as int)[0] == mapping@[i as int]);
            assert(mapping@.skip(i as int).drop_first() =~= mapping@.skip(i as int + 1));
        }
        if mapping[i].0.0 == p.0 && mapping[i].0.1 == p.1 {
            return Some(mapping[i].1);
        }
        i += 1;
    }
    proof {
        assert(mapping@.skip(n as int) =~= Seq::<((i64, i64), i64)>::empty());
    }
    None
}

/// A brand-new untagged node at a synthesized point.
fn node_of_pt(pt: PtGeo) -> (r: Node)
    ensures
        r@ == node_view_of_pt(pt),
{
    let r = Node {
        x: pt.x,
        y: pt.y,
        lon: pt.lon,
        lat: pt.lat,
        tags: Tags::empty(),
        version: 0,
        way_ids: Vec::new(),
        modified: true,
        problems: Vec::new(),
    };
    proof {
        assert(r@.way_ids =~= Seq::<i64>::empty());
        assert(r@.problems =~= Seq::<crate::store::ProblemView>::empty());
    }
    r
}

/// An empty consequence: what a failed command logs.
fn empty_consequence() -> (r: Consequence)
    ensures
        r@ == ConsequenceView::empty(),
        conseq_wf(r@),
{
    let r = Consequence {
        tag_changes: Vec::new(),
        node_replacements: Vec::new(),
        new_nodes: Vec::new(),
        new_ways: Vec::new(),
    };
    proof {
        assert(r@.tag_changes =~= Seq::<(i64, Seq<TagCmdView>)>::empty());
        assert(r@.node_replacements =~= Seq::<(i64, Seq<i64>)>::empty());
        assert(r@.new_nodes =~= Seq::<(i64, NodeView)>::empty());
        assert(r@.new_ways =~= Seq::<(i64, WayView)>::empty());
    }
    r
}

impl Speedwalk {
    /// The tag commands a SetTags produces for one way: removals of the old
    /// sidewalk keys, then the new assignments.
    fn set_tags_consequence(&self, wid: i64, pairs: &Vec<(String, String)>) -> (r: (
        Consequence,
        Option<EditError>,
    ))
        ensures
            ({
                let out = spec_set_tags(
                    self.derived_ways@,
                    wid,
                    pairs@.map_values(|p: (String, String)| (p.0@, p.1@)),
                    0,
                );
                r.0@ == out.conseq && r.1 == out.err
            }),
            conseq_wf(r.0@),
    {
        let ghost pv = pairs@.map_values(|p: (String, String)| (p.0@, p.1@));
        let found = self.derived_ways.get(wid);
        match found {
            Some(w) => {
                let ghost tv = w@.tags;
                let mut cmds: Vec<TagCmd> = Vec::new();
                let n = w.tags.len();
                let mut i: usize = 0;
                proof {
                    assert(tv.subrange(0, 0) =~= Seq::<(Seq<char>, Seq<char>)>::empty());
                    assert(cmds@.map_values(|c: TagCmd| c@) =~= sidewalk_removes(
                        tv.subrange(0, 0),
                    ));
                }
                while i < n
                    invariant
                        n == tv.len(),
                        w@.tags == tv,
                        i <= n,
                        cmds@.map_values(|c: TagCmd| c@) == sidewalk_removes(
                            tv.subrange(0, i as int),
                        ),
                    decreases n - i,
                {
                    proof {
                        let cur = tv.subrange(0, i as int + 1);
                        assert(cur.drop_last() =~= tv.subrange(0, i as int));
                        assert(cur.last() == tv[i as int]);
                    }
                    if crate::strutil::str_starts_with(w.tags.key_at(i).as_str(), "sidewalk") {
                        cmds.push(TagCmd::Remove(w.tags.key_at(i).clone()));
                        proof {
                            assert(cmds@.map_values(|c: TagCmd| c@) =~= sidewalk_removes(
                                tv.subrange(0, i as int),
                            ).push(TagCmdView::Remove(tv[i as int].0)));
                            assert(cmds@.map_values(|c: TagCmd| c@) =~= sidewalk_removes(
                                tv.subrange(0, i as int + 1),
                            ));
                        }
                    } else {
                        proof {
                            assert(sidewalk_removes(tv.subrange(0, i as int + 1))
                                =~= sidewalk_removes(tv.subrange(0, i as int)));
                        }
                    }
                    i += 1;
                }
                proof {
                    assert(tv.subrange(0, n as int) =~= tv);
                }
                let np = pairs.len();
                let mut i: usize = 0;
                while i < np
                    invariant
                        np == pv.len(),
                        pv == pairs@.map_values(|p: (String, String)| (p.0@, p.1@)),
                        i <= np,
                        cmds@.map_values(|c: TagCmd| c@) == sidewalk_removes(tv) + assigns_of(
                            pv.subrange(0, i as int),
                        ),
                    decreases np - i,
                {
                    let ghost m0 = cmds@.map_values(|c: TagCmd| c@);
                    let nc = TagCmd::Assign(pairs[i].0.clone(), pairs[i].1.clone());
                    let ghost ncv = nc@;
                    cmds.push(nc);
                    proof {
                        assert(cmds@.map_values(|c: TagCmd| c@) =~= m0.push(ncv));
                        assert(ncv == TagCmdView::Assign(pv[i as int].0, pv[i as int].1));
                        assert(pv[i as int] == (pairs@[i as int].0@, pairs@[i as int].1@));
                        assert(assigns_of(pv.subrange(0, i as int + 1)) =~= assigns_of(
                            pv.subrange(0, i as int),
                        ).push(TagCmdView::Assign(pv[i as int].0, pv[i as int].1)));
                        assert(cmds@.map_values(|c: TagCmd| c@) =~= sidewalk_removes(tv)
                            + assigns_of(pv.subrange(0, i as int + 1)));
                    }
                    i += 1;
                }
                proof {
                    assert(pv.subrange(0, np as int) =~= pv);
                }
                let mut tag_changes: Vec<(i64, Vec<TagCmd>)> = Vec::new();
                tag_changes.push((wid, cmds));
                let c = Consequence {
                    tag_changes,
                    node_replacements: Vec::new(),
                    new_nodes: Vec::new(),
                    new_ways: Vec::new(),
                };
                proof {
                    assert(c@.tag_changes =~= seq![(wid, sidewalk_removes(tv) + assigns_of(pv))]);
                    assert(c@.node_replacements =~= Seq::<(i64, Seq<i64>)>::empty());
                    assert(c@.new_nodes =~= Seq::<(i64, NodeView)>::empty());
                    assert(c@.new_ways =~= Seq::<(i64, WayView)>::empty());
                }
                (c, None)
            },
            None => (empty_consequence(), Some(EditError::UnknownWay)),
        }
    }

    /// The tag changes an AssumeTags produces: one assumed sidewalk side per
    /// untagged one-way severance, in store order.
    fn assume_tags_consequence(&self, drive_on_left: bool) -> (r: Consequence)
        ensures
            r@.tag_changes == assume_tag_targets(self.derived_ways@, drive_on_left),
            r@.node_replacements == Seq::<(i64, Seq<i64>)>::empty(),
            r@.new_nodes == Seq::<(i64, NodeView)>::empty(),
            r@.new_ways == Seq::<(i64, WayView)>::empty(),
            conseq_wf(r@),
    {
        let ghost ways = self.derived_ways@;
        let mut tag_changes: Vec<(i64, Vec<TagCmd>)> = Vec::new();
        let n = self.derived_ways.len();
        let mut i: usize = 0;
        proof {
            assert(ways.subrange(0, 0) =~= Seq::<(i64, WayView)>::empty());
            assert(tag_changes@.map_values(|e: (i64, Vec<TagCmd>)| (e.0, e.1@.map_values(|c: TagCmd| c@)))
                =~= assume_tag_targets(ways.subrange(0, 0), drive_on_left));
        }
        while i < n
            invariant
                n == ways.len(),
                self.derived_ways@ == ways,
                i <= n,
                tag_changes@.map_values(
                    |e: (i64, Vec<TagCmd>)| (e.0, e.1@.map_values(|c: TagCmd| c@)),
                ) == assume_tag_targets(ways.subrange(0, i as int), drive_on_left),
            decreases n - i,
        {
            proof {
                let cur = ways.subrange(0, i as int + 1);
                assert(cur.drop_last() =~= ways.subrange(0, i as int));
                assert(cur.last() == ways[i as int]);
            }
            let applies = {
                let w = self.derived_ways.value_at(i);
                w.is_severance() && !w.tags.has("sidewalk:both") && !w.tags.has("sidewalk:left")
                    && !w.tags.has("sidewalk:right") && !w.tags.has("sidewalk") && (w.tags.is(
                    "oneway",
                    "yes",
                ) || w.tags.is("junction", "roundabout"))
            };
            if applies {
                let wid = self.derived_ways.key_at(i);
                let side: &str = if drive_on_left {
                    "left"
                } else {
                    "right"
                };
                let mut cmds: Vec<TagCmd> = Vec::new();
                cmds.push(TagCmd::Assign("sidewalk".to_owned(), side.to_owned()));
                proof {
                    assert(cmds@.map_values(|c: TagCmd| c@) =~= seq![
                        TagCmdView::Assign(
                            "sidewalk"@,
                            if drive_on_left {
                                "left"@
                            } else {
                                "right"@
                            },
                        ),
                    ]);
                }
                tag_changes.push((wid, cmds));
                proof {
                    assert(tag_changes@.map_values(
                        |e: (i64, Vec<TagCmd>)| (e.0, e.1@.map_values(|c: TagCmd| c@)),
                    ) =~= assume_tag_targets(ways.subrange(0, i as int + 1), drive_on_left));
                }
            } else {
                proof {
                    assert(assume_tag_targets(ways.subrange(0, i as int + 1), drive_on_left)
                        =~= assume_tag_targets(ways.subrange(0, i as int), drive_on_left));
                }
            }
            i += 1;
        }
        proof {
            assert(ways.subrange(0, n as int) =~= ways);
        }
        let c = Consequence {
            tag_changes,
            node_replacements: Vec::new(),
            new_nodes: Vec::new(),
            new_ways: Vec::new(),
        };
        proof {
            assert(c@.node_replacements =~= Seq::<(i64, Seq<i64>)>::empty());
            assert(c@.new_nodes =~= Seq::<(i64, NodeView)>::empty());
            assert(c@.new_ways =~= Seq::<(i64, WayView)>::empty());
        }
        c
    }
}

impl Speedwalk {
    /// Turn a geometry event into a consequence, allocating node and way
    /// identifiers: splices into existing ways first, then whole new ways
    /// whose points reuse the nodes already created at the same position.
    fn create_new_geometry(&mut self, g: &CreateNewGeometry) -> (r: Consequence)
        requires
            event_ok(g@, old(self).derived_ways@),
            old(self).edits.id_counter < 0x2000_0000_0000_0000,
            forall|i: int|
                0 <= i < g@.new_objects.len() ==> tags_wf((#[trigger] g@.new_objects[i]).1),
        ensures
            r@ == spec_create_new_geometry(
                g@,
                old(self).derived_ways@,
                old(self).edits.id_counter,
            ).0,
            final(self).edits.id_counter == spec_create_new_geometry(
                g@,
                old(self).derived_ways@,
                old(self).edits.id_counter,
            ).1,
            conseq_wf(r@),
            final(self).derived_nodes == old(self).derived_nodes,
            final(self).derived_ways == old(self).derived_ways,
            final(self).original_nodes == old(self).original_nodes,
            final(self).original_ways == old(self).original_ways,
            final(self).edits.user_commands == old(self).edits.user_commands,
            final(self).edits.consequences == old(self).edits.consequences,
            final(self).timestamp == old(self).timestamp,
    {
        let ghost ways0 = self.derived_ways@;
        let ghost c0 = self.edits.id_counter;
        let ghost gv = g@;
        let ghost acc0 = GAcc {
            counter: c0,
            mapping: Seq::empty(),
            new_nodes: Seq::empty(),
            node_replacements: Seq::empty(),
            new_ways: Seq::empty(),
        };
        let mut mapping: Vec<((i64, i64), i64)> = Vec::new();
        let mut new_nodes: Vec<(i64, Node)> = Vec::new();
        let mut node_replacements: Vec<(i64, Vec<i64>)> = Vec::new();

        let n_me = g.modify_existing.len();
        let mut mi: usize = 0;
        proof {
            assert(gv.modify_existing.subrange(0, 0) =~= Seq::<
                (i64, Seq<(PtGeo, usize)>),
            >::empty());
            assert(mapping@ =~= acc0.mapping);
            assert(new_nodes@.map_values(|e: (i64, Node)| (e.0, e.1@)) =~= acc0.new_nodes);
            assert(node_replacements@.map_values(|e: (i64, Vec<i64>)| (e.0, e.1@))
                =~= acc0.node_replacements);
        }
        while mi < n_me
            invariant
                n_me == gv.modify_existing.len(),
                gv == g@,
                event_ok(gv, ways0),
                self.derived_ways@ == ways0,
                c0 < 0x2000_0000_0000_0000,
                mi <= n_me,
                ({
                    let a = g_modify_all(acc0, ways0, gv.modify_existing.subrange(0, mi as int));
                    &&& mapping@ == a.mapping
                    &&& new_nodes@.map_values(|e: (i64, Node)| (e.0, e.1@)) == a.new_nodes
                    &&& node_replacements@.map_values(|e: (i64, Vec<i64>)| (e.0, e.1@))
                        == a.node_replacements
                    &&& self.edits.id_counter == a.counter
                    &&& a.new_ways == Seq::<(i64, WayView)>::empty()
                }),
                self.edits.id_counter <= c0 + mi * 0x100000,
                forall|j: int|
                    0 <= j < new_nodes@.len() ==> tags_wf(
                        (#[trigger] new_nodes@[j]).1@.tags,
                    ),
                self.derived_nodes == old(self).derived_nodes,
                self.derived_ways == old(self).derived_ways,
                self.original_nodes == old(self).original_nodes,
                self.original_ways == old(self).original_ways,
                self.edits.user_commands == old(self).edits.user_commands,
                self.edits.consequences == old(self).edits.consequences,
                self.timestamp == old(self).timestamp,
            decreases n_me - mi,
        {
            proof {
                let cur = gv.modify_existing.subrange(0, mi as int + 1);
                assert(cur.drop_last() =~= gv.modify_existing.subrange(0, mi as int));
                assert(cur.last() == gv.modify_existing[mi as int]);
                assert(gv.modify_existing[mi as int] == (
                    g.modify_existing@[mi as int].0,
                    g.modify_existing@[mi as int].1@,
                ));
            }
            let ghost a_base = g_modify_all(
                acc0,
                ways0,
                gv.modify_existing.subrange(0, mi as int),
            );
            let wid = g.modify_existing[mi].0;
            let ghost pts_v = gv.modify_existing[mi as int].1;
            let base_ids = {
                let found = self.derived_ways.get(wid);
                match found {
                    Some(w) => crate::store::copy_id_vec(&w.node_ids),
                    None => {
                        proof {
                            assert(id_has(ways0, wid));
                            assert(false);
                        }
                        Vec::new()
                    },
                }
            };
            let ghost ids0 = id_find(ways0, wid).unwrap().node_ids;
            proof {
                assert(base_ids@ == ids0);
            }
            let mut ids = base_ids;
            let n_pts = g.modify_existing[mi].1.len();
            let mut p: usize = 0;
            proof {
                assert(pts_v.subrange(0, 0) =~= Seq::<(PtGeo, usize)>::empty());
            }
            while p < n_pts
                invariant
                    n_pts == pts_v.len(),
                    gv == g@,
                    mi < gv.modify_existing.len(),
                    pts_v == gv.modify_existing[mi as int].1,
                    event_ok(gv, ways0),
                    ids0 == id_find(ways0, wid).unwrap().node_ids,
                    wid == gv.modify_existing[mi as int].0,
                    g.modify_existing@[mi as int].0 == wid,
                    g.modify_existing@[mi as int].1@ == pts_v,
                    c0 < 0x2000_0000_0000_0000,
                    mi < n_me,
                    n_me == gv.modify_existing.len(),
                    p <= n_pts,
                    ({
                        let (a2, cur) = g_modify_pts(a_base, ids0, pts_v.subrange(0, p as int));
                        &&& mapping@ == a2.mapping
                        &&& new_nodes@.map_values(|e: (i64, Node)| (e.0, e.1@)) == a2.new_nodes
                        &&& node_replacements@.map_values(|e: (i64, Vec<i64>)| (e.0, e.1@))
                            == a2.node_replacements
                        &&& self.edits.id_counter == a2.counter
                        &&& a2.new_ways == Seq::<(i64, WayView)>::empty()
                        &&& ids@ == cur
                    }),
                    ids@.len() == ids0.len() + p,
                    self.edits.id_counter <= c0 + mi * 0x100000 + p,
                    a_base == g_modify_all(acc0, ways0, gv.modify_existing.subrange(0, mi as int)),
                    forall|j: int|
                        0 <= j < new_nodes@.len() ==> tags_wf(
                            (#[trigger] new_nodes@[j]).1@.tags,
                        ),
                    self.derived_nodes == old(self).derived_nodes,
                    self.derived_ways == old(self).derived_ways,
                    self.original_nodes == old(self).original_nodes,
                    self.original_ways == old(self).original_ways,
                    self.edits.user_commands == old(self).edits.user_commands,
                    self.edits.consequences == old(self).edits.consequences,
                    self.timestamp == old(self).timestamp,
                decreases n_pts - p,
            {
                proof {
                    let cur = pts_v.subrange(0, p as int + 1);
                    assert(cur.drop_last() =~= pts_v.subrange(0, p as int));
                    assert(cur.last() == pts_v[p as int]);
                    assert(mi * 0x100000 <= 0x100000 * 0x100000);
                    assert(pts_v[p as int].1 <= ids0.len());
                }
                let (pt, idx) = g.modify_existing[mi].1[p];
                let nid = self.edits.new_node_id();
                mapping.push(((pt.x, pt.y), nid));
                let ghost nn0 = new_nodes@.map_values(|e: (i64, Node)| (e.0, e.1@));
                let nd = node_of_pt(pt);
                new_nodes.push((nid, nd));
                proof {
                    assert(new_nodes@.map_values(|e: (i64, Node)| (e.0, e.1@)) =~= nn0.push(
                        (nid, node_view_of_pt(pt)),
                    ));
                }
                ids.insert(idx, nid);
                proof {
                    assert(ids@ =~= g_modify_pts(a_base, ids0, pts_v.subrange(0, p as int)).1
                        .insert(idx as int, nid));
                }
                p += 1;
            }
            proof {
                assert(pts_v.subrange(0, n_pts as int) =~= pts_v);
            }
            let ghost nr0 = node_replacements@.map_values(|e: (i64, Vec<i64>)| (e.0, e.1@));
            node_replacements.push((wid, ids));
            proof {
                assert(node_replacements@.map_values(|e: (i64, Vec<i64>)| (e.0, e.1@))
                    =~= nr0.push((wid, g_modify_pts(a_base, ids0, pts_v).1)));
            }
            mi += 1;
        }
        proof {
            assert(gv.modify_existing.subrange(0, n_me as int) =~= gv.modify_existing);
        }
        let ghost a_mid = g_modify_all(acc0, ways0, gv.modify_existing);

        let mut new_ways: Vec<(i64, Way)> = Vec::new();
        let n_obj = g.new_objects.len();
        let mut oi: usize = 0;
        proof {
            assert(gv.new_objects.subrange(0, 0) =~= Seq::<
                (Seq<PtGeo>, Seq<(Seq<char>, Seq<char>)>),
            >::empty());
            assert(new_ways@.map_values(|e: (i64, Way)| (e.0, e.1@)) =~= a_mid.new_ways);
        }
        while oi < n_obj
            invariant
                n_obj == gv.new_objects.len(),
                gv == g@,
                event_ok(gv, ways0),
                c0 < 0x2000_0000_0000_0000,
                a_mid == g_modify_all(acc0, ways0, gv.modify_existing),
                a_mid.counter <= c0 + 0x100000 * 0x100000 + 0x100000,
                forall|i: int|
                    0 <= i < gv.new_objects.len() ==> tags_wf(
                        (#[trigger] gv.new_objects[i]).1,
                    ),
                oi <= n_obj,
                ({
                    let a = g_objects(a_mid, gv.new_objects.subrange(0, oi as int), gv.new_kind);
                    &&& mapping@ == a.mapping
                    &&& new_nodes@.map_values(|e: (i64, Node)| (e.0, e.1@)) == a.new_nodes
                    &&& node_replacements@.map_values(|e: (i64, Vec<i64>)| (e.0, e.1@))
                        == a.node_replacements
                    &&& new_ways@.map_values(|e: (i64, Way)| (e.0, e.1@)) == a.new_ways
                    &&& self.edits.id_counter == a.counter
                }),
                self.edits.id_counter <= a_mid.counter + oi * 0x100001,
                forall|j: int|
                    0 <= j < new_nodes@.len() ==> tags_wf((#[trigger] new_nodes@[j]).1@.tags),
                forall|j: int|
                    0 <= j < new_ways@.len() ==> tags_wf((#[trigger] new_ways@[j]).1@.tags),
                forall|j: int|
                    0 <= j < new_ways@.len() ==> (#[trigger] new_ways@[j]).1@.linestring.len()
                        == new_ways@[j].1@.node_ids.len(),
                self.derived_nodes == old(self).derived_nodes,
                self.derived_ways == old(self).derived_ways,
                self.original_nodes == old(self).original_nodes,
                self.original_ways == old(self).original_ways,
                self.edits.user_commands == old(self).edits.user_commands,
                self.edits.consequences == old(self).edits.consequences,
                self.timestamp == old(self).timestamp,
            decreases n_obj - oi,
        {
            proof {
                let cur = gv.new_objects.subrange(0, oi as int + 1);
                assert(cur.drop_last() =~= gv.new_objects.subrange(0, oi as int));
                assert(cur.last() == gv.new_objects[oi as int]);
                assert(gv.new_objects[oi as int] == (
                    g.new_objects@[oi as int].0@,
                    g.new_objects@[oi as int].1@,
                ));
                assert(oi * 0x100001 <= 0x100000 * 0x100001);
            }
            let ghost a_o = g_objects(a_mid, gv.new_objects.subrange(0, oi as int), gv.new_kind);
            let ghost pts_v = gv.new_objects[oi as int].0;
            let mut ids: Vec<i64> = Vec::new();
            let mut ls: Vec<(i64, i64)> = Vec::new();
            let n_pts = g.new_objects[oi].0.len();
            let mut p: usize = 0;
            proof {
                assert(pts_v.subrange(0, 0) =~= Seq::<PtGeo>::empty());
                assert(ids@ =~= g_object_pts(a_o, pts_v.subrange(0, 0)).1);
            }
            while p < n_pts
                invariant
                    n_pts == pts_v.len(),
                    pts_v.len() <= 0x100000,
                    gv == g@,
                    oi < gv.new_objects.len(),
                    pts_v == gv.new_objects[oi as int].0,
                    g.new_objects@[oi as int].0@ == pts_v,
                    c0 < 0x2000_0000_0000_0000,
                    a_mid.counter <= c0 + 0x100000 * 0x100000 + 0x100000,
                    a_o == g_objects(a_mid, gv.new_objects.subrange(0, oi as int), gv.new_kind),
                    a_o.counter <= a_mid.counter + oi * 0x100001,
                    oi < n_obj,
                    n_obj <= 0x100000,
                    p <= n_pts,
                    ({
                        let (a2, cur) = g_object_pts(a_o, pts_v.subrange(0, p as int));
                        &&& mapping@ == a2.mapping
                        &&& new_nodes@.map_values(|e: (i64, Node)| (e.0, e.1@)) == a2.new_nodes
                        &&& node_replacements@.map_values(|e: (i64, Vec<i64>)| (e.0, e.1@))
                            == a2.node_replacements
                        &&& new_ways@.map_values(|e: (i64, Way)| (e.0, e.1@)) == a2.new_ways
                        &&& self.edits.id_counter == a2.counter
                        &&& ids@ == cur
                    }),
                    ids@.len() == p,
                    ls@ == pts_v.subrange(0, p as int).map_values(|q: PtGeo| (q.x, q.y)),
                    self.edits.id_counter <= a_o.counter + p,
                    forall|j: int|
                        0 <= j < new_nodes@.len() ==> tags_wf(
                            (#[trigger] new_nodes@[j]).1@.tags,
                        ),
                    self.derived_nodes == old(self).derived_nodes,
                    self.derived_ways == old(self).derived_ways,
                    self.original_nodes == old(self).original_nodes,
                    self.original_ways == old(self).original_ways,
                    self.edits.user_commands == old(self).edits.user_commands,
                    self.edits.consequences == old(self).edits.consequences,
                    self.timestamp == old(self).timestamp,
                decreases n_pts - p,
            {
                proof {
                    let cur = pts_v.subrange(0, p as int + 1);
                    assert(cur.drop_last() =~= pts_v.subrange(0, p as int));
                    assert(cur.last() == pts_v[p as int]);
                    assert(oi * 0x100001 <= 0x100000 * 0x100001);
                }
                let pt = g.new_objects[oi].0[p];
                let found = pt_lookup(&mapping, (pt.x, pt.y));
                match found {
                    Some(nid) => {
                        ids.push(nid);
                    },
                    None => {
                        let nid = self.edits.new_node_id();
                        mapping.push(((pt.x, pt.y), nid));
                        let ghost nn0 = new_nodes@.map_values(|e: (i64, Node)| (e.0, e.1@));
                        new_nodes.push((nid, node_of_pt(pt)));
                        proof {
                            assert(new_nodes@.map_values(|e: (i64, Node)| (e.0, e.1@))
                                =~= nn0.push((nid, node_view_of_pt(pt))));
                        }
                        ids.push(nid);
                    },
                }
                ls.push((pt.x, pt.y));
                proof {
                    assert(ls@ =~= pts_v.subrange(0, p as int + 1).map_values(
                        |q: PtGeo| (q.x, q.y),
                    ));
                }
                p += 1;
            }
            proof {
                assert(pts_v.subrange(0, n_pts as int) =~= pts_v);
                assert(ls@ =~= pts_v.map_values(|q: PtGeo| (q.x, q.y)));
            }
            let wid = self.edits.new_way_id();
            let tags = {
                let src = &g.new_objects[oi].1;
                src.duplicate()
            };
            let w = Way {
                node_ids: ids,
                linestring: ls,
                tags,
                version: 0,
                kind: g.new_kind,
                modified: true,
                problems: Vec::new(),
            };
            let ghost nw0 = new_ways@.map_values(|e: (i64, Way)| (e.0, e.1@));
            proof {
                assert(w@.problems =~= Seq::<crate::store::ProblemView>::empty());
            }
            new_ways.push((wid, w));
            proof {
                let (a2, cur) = g_object_pts(a_o, pts_v);
                assert(new_ways@.map_values(|e: (i64, Way)| (e.0, e.1@)) =~= nw0.push(
                    (
                        wid,
                        WayView {
                            node_ids: cur,
                            linestring: pts_v.map_values(|q: PtGeo| (q.x, q.y)),
                            tags: gv.new_objects[oi as int].1,
                            version: 0,
                            kind: gv.new_kind,
                            modified: true,
                            problems: Seq::empty(),
                        },
                    ),
                ));
            }
            oi += 1;
        }
        proof {
            assert(gv.new_objects.subrange(0, n_obj as int) =~= gv.new_objects);
        }
        let r = Consequence {
            tag_changes: Vec::new(),
            node_replacements,
            new_nodes,
            new_ways,
        };
        proof {
            assert(r@.tag_changes =~= Seq::<(i64, Seq<TagCmdView>)>::empty());
        }
        r
    }
}

impl Speedwalk {
    /// The consequence of adding one crossing node: create it and splice it
    /// into the target way.
    fn add_crossing_consequence(
        &mut self,
        pt: PtGeo,
        tags: &Tags,
        target: Option<(i64, usize)>,
    ) -> (r: (Consequence, Option<EditError>))
        requires
            old(self).edits.id_counter < 0x2000_0000_0000_0000,
            tags_wf(tags@),
        ensures
            conseq_wf(r.0@),
            ({
                let out = spec_add_crossing(
                    old(self).derived_ways@,
                    pt,
                    tags@,
                    target,
                    old(self).edits.id_counter,
                );
                &&& r.0@ == out.conseq
                &&& r.1 == out.err
                &&& final(self).edits.id_counter == out.counter
            }),
            final(self).derived_nodes == old(self).derived_nodes,
            final(self).derived_ways == old(self).derived_ways,
            final(self).original_nodes == old(self).original_nodes,
            final(self).original_ways == old(self).original_ways,
            final(self).edits.user_commands == old(self).edits.user_commands,
            final(self).edits.consequences == old(self).edits.consequences,
            final(self).timestamp == old(self).timestamp,
    {
        match target {
            None => (empty_consequence(), Some(EditError::NoRoadForCrossing)),
            Some((wid, idx)) => {
                let base_ids = {
                    let found = self.derived_ways.get(wid);
                    match found {
                        Some(w) => Some(crate::store::copy_id_vec(&w.node_ids)),
                        None => None,
                    }
                };
                match base_ids {
                    Some(mut ids) => {
                        if idx > ids.len() {
                            return (empty_consequence(), Some(EditError::BadEvent));
                        }
                        let nid = self.edits.new_node_id();
                        ids.insert(idx, nid);
                        let nd = Node {
                            x: pt.x,
                            y: pt.y,
                            lon: pt.lon,
                            lat: pt.lat,
                            tags: tags.duplicate(),
                            version: 0,
                            way_ids: Vec::new(),
                            modified: true,
                            problems: Vec::new(),
                        };
                        proof {
                            assert(nd@.way_ids =~= Seq::<i64>::empty());
                            assert(nd@.problems =~= Seq::<crate::store::ProblemView>::empty());
                            assert(nd@ == crossing_node_view(pt, tags@));
                        }
                        let mut new_nodes: Vec<(i64, Node)> = Vec::new();
                        new_nodes.push((nid, nd));
                        let mut node_replacements: Vec<(i64, Vec<i64>)> = Vec::new();
                        node_replacements.push((wid, ids));
                        let c = Consequence {
                            tag_changes: Vec::new(),
                            node_replacements,
                            new_nodes,
                            new_ways: Vec::new(),
                        };
                        proof {
                            assert(c@.tag_changes =~= Seq::<(i64, Seq<TagCmdView>)>::empty());
                            assert(c@.new_ways =~= Seq::<(i64, WayView)>::empty());
                            assert(c@.new_nodes =~= seq![(nid, crossing_node_view(pt, tags@))]);
                            assert(c@.node_replacements =~= seq![
                                (
                                    wid,
                                    id_find(old(self).derived_ways@, wid).unwrap().node_ids.insert(
                                        idx as int,
                                        nid,
                                    ),
                                ),
                            ]);
                        }
                        (c, None)
                    },
                    None => (empty_consequence(), Some(EditError::UnknownWay)),
                }
            },
        }
    }

    /// The consequence of splitting a way at side roads: the base way keeps
    /// the first chunk, the rest become new sidewalk ways with its tags.
    fn split_consequence(&mut self, wid: i64) -> (r: (Consequence, Option<EditError>))
        requires
            old(self).edits.id_counter < 0x2000_0000_0000_0000,
            ways_tags_wf(old(self).derived_ways@),
        ensures
            conseq_wf(r.0@),
            ({
                let out = spec_split_apply(
                    StoreV { nodes: old(self).derived_nodes@, ways: old(self).derived_ways@ },
                    wid,
                    old(self).edits.id_counter,
                );
                &&& r.0@ == out.conseq
                &&& r.1 == out.err
                &&& final(self).edits.id_counter == out.counter
            }),
            final(self).derived_nodes == old(self).derived_nodes,
            final(self).derived_ways == old(self).derived_ways,
            final(self).original_nodes == old(self).original_nodes,
            final(self).original_ways == old(self).original_ways,
            final(self).edits.user_commands == old(self).edits.user_commands,
            final(self).edits.consequences == old(self).edits.consequences,
            final(self).timestamp == old(self).timestamp,
    {
        let ghost sv = StoreV { nodes: self.derived_nodes@, ways: self.derived_ways@ };
        let ghost c0 = self.edits.id_counter;
        let changes = self.split_at_side_roads(wid);
        let chunks = changes.create_new_sidewalks;
        let ghost chv = crate::split::spec_split_chunks(sv.nodes, sv.ways, wid);
        proof {
            assert(chunks@.map_values(|v: Vec<i64>| v@) == chv);
        }
        if chunks.len() == 0 {
            return (empty_consequence(), None);
        }
        if chunks.len() > 0x100000 {
            return (empty_consequence(), Some(EditError::BadEvent));
        }
        let base = {
            let found = self.derived_ways.get(wid);
            match found {
                Some(w) => (w.tags.duplicate(), w.kind),
                None => {
                    proof {
                        assert(chv.len() == 0);
                        assert(false);
                    }
                    (Tags::empty(), Kind::Other)
                },
            }
        };
        let ghost basev = id_find(sv.ways, wid).unwrap();
        proof {
            assert(base.0@ == basev.tags);
            assert(base.1 == basev.kind);
            lemma_id_find_pos(sv.ways, wid);
            assert(tags_wf(basev.tags)) by {
                let j = choose|j: int|
                    0 <= j < sv.ways.len() && sv.ways[j].0 == wid && sv.ways[j].1 == basev;
                assert(tags_wf(sv.ways[j].1.tags));
            }
        }
        let mut node_replacements: Vec<(i64, Vec<i64>)> = Vec::new();
        node_replacements.push((wid, crate::store::copy_id_vec(&chunks[0])));

        let ghost rest = chv.drop_first();
        let mut new_ways: Vec<(i64, Way)> = Vec::new();
        let n = chunks.len();
        let mut ci: usize = 1;
        proof {
            assert(rest.subrange(0, 0) =~= Seq::<Seq<i64>>::empty());
            assert(new_ways@.map_values(|e: (i64, Way)| (e.0, e.1@)) =~= split_new_ways(
                sv.nodes,
                basev,
                rest.subrange(0, 0),
                c0,
            ).0);
        }
        while ci < n
            invariant
                n == chunks@.len(),
                chunks@.map_values(|v: Vec<i64>| v@) == chv,
                n <= 0x100000,
                1 <= ci <= n,
                rest == chv.drop_first(),
                sv == (StoreV { nodes: self.derived_nodes@, ways: self.derived_ways@ }),
                c0 < 0x2000_0000_0000_0000,
                basev == id_find(sv.ways, wid).unwrap(),
                base.0@ == basev.tags,
                base.1 == basev.kind,
                ({
                    let (ws, c) = split_new_ways(sv.nodes, basev, rest.subrange(0, ci - 1), c0);
                    &&& new_ways@.map_values(|e: (i64, Way)| (e.0, e.1@)) == ws
                    &&& self.edits.id_counter == c
                }),
                tags_wf(basev.tags),
                forall|j: int|
                    0 <= j < new_ways@.len() ==> tags_wf((#[trigger] new_ways@[j]).1@.tags),
                forall|j: int|
                    0 <= j < new_ways@.len() ==> (#[trigger] new_ways@[j]).1@.linestring.len()
                        == new_ways@[j].1@.node_ids.len(),
                self.edits.id_counter <= c0 + ci,
                self.derived_nodes == old(self).derived_nodes,
                self.derived_ways == old(self).derived_ways,
                self.original_nodes == old(self).original_nodes,
                self.original_ways == old(self).original_ways,
                self.edits.user_commands == old(self).edits.user_commands,
                self.edits.consequences == old(self).edits.consequences,
                self.timestamp == old(self).timestamp,
            decreases n - ci,
        {
            proof {
                let cur = rest.subrange(0, ci as int);
                assert(cur.drop_last() =~= rest.subrange(0, ci - 1));
                assert(cur.last() == rest[ci - 1]);
                assert(rest[ci - 1] == chv[ci as int]);
                assert(chunks@.map_values(|v: Vec<i64>| v@)[ci as int] == chunks@[ci as int]@);
            }
            let ids = crate::store::copy_id_vec(&chunks[ci]);
            let ls = self.lookup_linestring(&ids);
            let nwid = self.edits.new_way_id();
            let w = Way {
                node_ids: ids,
                linestring: ls,
                tags: base.0.duplicate(),
                version: 0,
                kind: base.1,
                modified: true,
                problems: Vec::new(),
            };
            proof {
                assert(w@.problems =~= Seq::<crate::store::ProblemView>::empty());
            }
            let ghost nw0 = new_ways@.map_values(|e: (i64, Way)| (e.0, e.1@));
            new_ways.push((nwid, w));
            proof {
                assert(new_ways@.map_values(|e: (i64, Way)| (e.0, e.1@)) =~= nw0.push(
                    (
                        nwid,
                        WayView {
                            node_ids: chv[ci as int],
                            linestring: linestring_of(sv.nodes, chv[ci as int]),
                            tags: basev.tags,
                            version: 0,
                            kind: basev.kind,
                            modified: true,
                            problems: Seq::empty(),
                        },
                    ),
                ));
            }
            ci += 1;
        }
        proof {
            assert(rest.subrange(0, n - 1) =~= rest);
        }
        let c = Consequence {
            tag_changes: Vec::new(),
            node_replacements,
            new_nodes: Vec::new(),
            new_ways,
        };
        proof {
            assert(c@.tag_changes =~= Seq::<(i64, Seq<TagCmdView>)>::empty());
            assert(c@.new_nodes =~= Seq::<(i64, NodeView)>::empty());
            assert(c@.node_replacements =~= seq![(wid, chv[0])]);
        }
        (c, None)
    }

    /// Whether a geometry event is valid against the derived store.
    fn check_event_ok(&self, g: &CreateNewGeometry) -> (r: bool)
        ensures
            r == event_ok(g@, self.derived_ways@),
    {
        let ghost gv = g@;
        let ghost ways = self.derived_ways@;
        if g.modify_existing.len() > 0x100000 || g.new_objects.len() > 0x100000 {
            return false;
        }
        let n_obj = g.new_objects.len();
        let mut i: usize = 0;
        while i < n_obj
            invariant
                n_obj == gv.new_objects.len(),
                gv == g@,
                i <= n_obj,
                forall|j: int|
                    0 <= j < i ==> (#[trigger] gv.new_objects[j]).0.len() <= 0x100000,
            decreases n_obj - i,
        {
            if g.new_objects[i].0.len() > 0x100000 {
                proof {
                    assert(gv.new_objects[i as int].0.len() > spec_max_batch());
                }
                return false;
            }
            i += 1;
        }
        let n_me = g.modify_existing.len();
        let mut i: usize = 0;
        while i < n_me
            invariant
                n_me == gv.modify_existing.len(),
                gv == g@,
                self.derived_ways@ == ways,
                i <= n_me,
                forall|j: int|
                    0 <= j < i ==> {
                        let (wid, pts) = #[trigger] gv.modify_existing[j];
                        &&& id_has(ways, wid)
                        &&& pts.len() <= 0x100000
                        &&& forall|k: int|
                            0 <= k < pts.len() ==> (#[trigger] pts[k]).1 <= id_find(
                                ways,
                                wid,
                            ).unwrap().node_ids.len()
                        &&& forall|k: int, l: int|
                            0 <= k < l < pts.len() ==> (#[trigger] pts[k]).1 > (#[trigger] pts[l]).1
                    },
            decreases n_me - i,
        {
            let wid = g.modify_existing[i].0;
            let base_len = {
                let found = self.derived_ways.get(wid);
                match found {
                    Some(w) => Some(w.node_ids.len()),
                    None => None,
                }
            };
            match base_len {
                None => {
                    return false;
                },
                Some(blen) => {
                    let pts = &g.modify_existing[i].1;
                    if pts.len() > 0x100000 {
                        return false;
                    }
                    let ghost ptsv = gv.modify_existing[i as int].1;
                    let np = pts.len();
                    let mut p: usize = 0;
                    while p < np
                        invariant
                            np == ptsv.len(),
                            gv == g@,
                            self.derived_ways@ == ways,
                            ptsv == gv.modify_existing[i as int].1,
                            i < gv.modify_existing.len(),
                            pts@ == ptsv,
                            blen == id_find(ways, gv.modify_existing[i as int].0)
                                .unwrap().node_ids.len(),
                            p <= np,
                            forall|k: int|
                                0 <= k < p ==> (#[trigger] ptsv[k]).1 <= blen,
                            forall|k: int|
                                0 < k < p ==> ptsv[k - 1].1 > (#[trigger] ptsv[k]).1,
                        decreases np - p,
                    {
                        if pts[p].1 > blen {
                            proof {
                                if event_ok(gv, ways) {
                                    let (wid2, pts2) = gv.modify_existing[i as int];
                                    assert((#[trigger] pts2[p as int]).1 <= id_find(
                                        ways,
                                        wid2,
                                    ).unwrap().node_ids.len());
                                    assert(false);
                                }
                            }
                            return false;
                        }
                        if p > 0 && pts[p - 1].1 <= pts[p].1 {
                            proof {
                                if event_ok(gv, ways) {
                                    let (wid2, pts2) = gv.modify_existing[i as int];
                                    assert((#[trigger] pts2[p - 1]).1 > (#[trigger] pts2[
                                        p as int]).1);
                                    assert(false);
                                }
                            }
                            return false;
                        }
                        p += 1;
                    }
                    proof {
                        assert forall|k: int, l: int|
                            0 <= k < l < ptsv.len() implies (#[trigger] ptsv[k]).1 > (
                        #[trigger] ptsv[l]).1 by {
                            lemma_desc_chain(ptsv, k, l);
                        }
                    }
                },
            }
            i += 1;
        }
        true
    }

    /// Append one command to the log, with the consequence it has against
    /// the current derived store. A failed command is still logged, with an
    /// empty consequence, and its error is returned.
    pub fn apply_cmd(&mut self, cmd: UserCmd, event: &CmdEvent) -> (r: Result<(), EditError>)
        requires
            old(self).edits.id_counter < 0x2000_0000_0000_0000,
            conseqs_wf(old(self).edits.spec_consequences()),
            ways_tags_wf(old(self).derived_ways@),
            match cmd@ {
                UserCmdView::AddCrossing(_, t) => tags_wf(t),
                _ => true,
            },
            match event@ {
                CmdEventView::Geometry(Some(g)) => forall|i: int|
                    0 <= i < g.new_objects.len() ==> tags_wf((#[trigger] g.new_objects[i]).1),
                _ => true,
            },
        ensures
            ({
                let out = spec_apply(
                    cmd@,
                    event@,
                    StoreV { nodes: old(self).derived_nodes@, ways: old(self).derived_ways@ },
                    old(self).edits.id_counter,
                );
                &&& final(self).edits.spec_commands() == old(self).edits.spec_commands().push(
                    cmd@,
                )
                &&& final(self).edits.spec_consequences() == old(
                    self,
                ).edits.spec_consequences().push(out.conseq)
                &&& final(self).edits.id_counter == out.counter
                &&& r == (match out.err {
                    None => Ok::<(), EditError>(()),
                    Some(e) => Err::<(), EditError>(e),
                })
            }),
            conseqs_wf(final(self).edits.spec_consequences()),
            final(self).edits.user_commands@.len() == old(self).edits.user_commands@.len() + 1,
            final(self).edits.consequences@.len() == old(self).edits.consequences@.len() + 1,
            final(self).derived_nodes == old(self).derived_nodes,
            final(self).derived_ways == old(self).derived_ways,
            final(self).original_nodes == old(self).original_nodes,
            final(self).original_ways == old(self).original_ways,
            final(self).timestamp == old(self).timestamp,
    {
        let ghost sv = StoreV { nodes: self.derived_nodes@, ways: self.derived_ways@ };
        let ghost c0 = self.edits.id_counter;
        let ghost out = spec_apply(cmd@, event@, sv, c0);
        let (conseq, err): (Consequence, Option<EditError>) = match (&cmd, event) {
            (UserCmd::SetTags(wid, pairs), CmdEvent::Nothing) => self.set_tags_consequence(
                *wid,
                pairs,
            ),
            (UserCmd::AssumeTags(left), CmdEvent::Nothing) => (
                self.assume_tags_consequence(*left),
                None,
            ),
            (UserCmd::SplitAtSideRoads(wid), CmdEvent::Nothing) => self.split_consequence(*wid),
            (UserCmd::MakeSidewalk(_, _, _, _), CmdEvent::Geometry(goty)) => match goty {
                Some(g) => {
                    if self.check_event_ok(g) {
                        (self.create_new_geometry(g), None)
                    } else {
                        (empty_consequence(), Some(EditError::BadEvent))
                    }
                },
                None => (empty_consequence(), Some(EditError::SynthesisFailed)),
            },
            (UserCmd::ConnectCrossing(_), CmdEvent::Geometry(goty)) => match goty {
                Some(g) => {
                    if self.check_event_ok(g) {
                        (self.create_new_geometry(g), None)
                    } else {
                        (empty_consequence(), Some(EditError::BadEvent))
                    }
                },
                None => (empty_consequence(), Some(EditError::SynthesisFailed)),
            },
            (UserCmd::MakeAllSidewalks(_), CmdEvent::Geometry(goty)) => match goty {
                Some(g) => {
                    if self.check_event_ok(g) {
                        (self.create_new_geometry(g), None)
                    } else {
                        (empty_consequence(), Some(EditError::BadEvent))
                    }
                },
                None => (empty_consequence(), None),
            },
            (UserCmd::ConnectAllCrossings, CmdEvent::Geometry(goty)) => match goty {
                Some(g) => {
                    if self.check_event_ok(g) {
                        (self.create_new_geometry(g), None)
                    } else {
                        (empty_consequence(), Some(EditError::BadEvent))
                    }
                },
                None => (empty_consequence(), None),
            },
            (UserCmd::AddCrossing(pt, tags), CmdEvent::CrossingTarget(t)) => {
                let pt2 = *pt;
                let t2 = *t;
                self.add_crossing_consequence(pt2, tags, t2)
            },
            _ => (empty_consequence(), Some(EditError::BadEvent)),
        };
        proof {
            assert(conseq@ == out.conseq);
            assert(err == out.err);
            assert(self.edits.id_counter == out.counter);
        }
        let ghost cmds0 = self.edits.spec_commands();
        let ghost cs0 = self.edits.spec_consequences();
        proof {
            assert(cmds0 == old(self).edits.spec_commands());
            assert(cs0 == old(self).edits.spec_consequences());
        }
        let ghost cv = conseq@;
        proof {
            assert(conseq_wf(cv));
        }
        self.edits.user_commands.push(cmd);
        self.edits.consequences.push(conseq);
        proof {
            assert(self.edits.spec_commands() =~= cmds0.push(
                self.edits.user_commands@.last()@,
            ));
            assert(self.edits.spec_consequences() =~= cs0.push(cv));
            let cs1 = self.edits.spec_consequences();
            assert forall|i: int| 0 <= i < cs1.len() implies conseq_wf(#[trigger] cs1[i]) by {
                if i < cs0.len() {
                    assert(cs1[i] == cs0[i]);
                } else {
                    assert(cs1[i] == cv);
                }
            }
        }
        match err {
            None => Ok(()),
            Some(e) => Err(e),
        }
    }
}

/// In a pairwise-descending chain, any earlier index is larger.
proof fn lemma_desc_chain(pts: Seq<(PtGeo, usize)>, k: int, l: int)
    requires
        forall|m: int| 0 < m < pts.len() ==> pts[m - 1].1 > (#[trigger] pts[m]).1,
        0 <= k < l < pts.len(),
    ensures
        pts[k].1 > pts[l].1,
    decreases l - k,
{
    if k + 1 < l {
        lemma_desc_chain(pts, k + 1, l);
    }
}

/// One step of an editing session: a command together with the geometry
/// event the outside engine computed for it.
pub ghost struct StepV {
    pub cmd: UserCmdView,
    pub ev: CmdEventView,
}

/// The identifier counter after replaying a session from the original
/// store: each step's consequence is computed against the store the
/// previous steps materialized.
pub open spec fn chain_counter(orig: StoreV, steps: Seq<StepV>, counter: u64) -> u64
    decreases steps.len(),
{
    if steps.len() == 0 {
        counter
    } else {
        let pre = chain_consequences(orig, steps.drop_last(), counter);
        spec_apply(
            steps.last().cmd,
            steps.last().ev,
            materialize(orig, pre),
            chain_counter(orig, steps.drop_last(), counter),
        ).counter
    }
}

/// The log a session leaves behind: consequence i is `spec_apply` of step i
/// against the store materialized from the consequences before it — exactly
/// what `apply_cmd` followed by `after_edit` does at each step.
pub open spec fn chain_consequences(
    orig: StoreV,
    steps: Seq<StepV>,
    counter: u64,
) -> Seq<ConsequenceView>
    decreases steps.len(),
{
    if steps.len() == 0 {
        Seq::empty()
    } else {
        let pre = chain_consequences(orig, steps.drop_last(), counter);
        pre.push(
            spec_apply(
                steps.last().cmd,
                steps.last().ev,
                materialize(orig, pre),
                chain_counter(orig, steps.drop_last(), counter),
            ).conseq,
        )
    }
}

/// Edit idempotence of recomputation: the derived store is a pure function
/// of the original store and the log, and recomputation leaves both
/// untouched, so recomputing twice in a row without adding commands yields
/// identical derived store contents.
pub proof fn lemma_recompute_idempotent(
    orig: StoreV,
    cs: Seq<ConsequenceView>,
    first: StoreV,
    second: StoreV,
)
    requires
        first == materialize(orig, cs),
        second == materialize(orig, cs),
    ensures
        first == second,
        first.nodes == second.nodes,
        first.ways == second.ways,
{
}

/// Undo inverse: a session of commands followed by one undo leaves exactly
/// the log that the same session without its last command leaves, and hence
/// the same derived store, recomputed from scratch either way.
pub proof fn lemma_undo_inverse(orig: StoreV, steps: Seq<StepV>, counter: u64)
    requires
        steps.len() > 0,
    ensures
        chain_consequences(orig, steps, counter).drop_last() == chain_consequences(
            orig,
            steps.drop_last(),
            counter,
        ),
        materialize(orig, chain_consequences(orig, steps, counter).drop_last()) == materialize(
            orig,
            chain_consequences(orig, steps.drop_last(), counter),
        ),
{
    let pre = chain_consequences(orig, steps.drop_last(), counter);
    assert(chain_consequences(orig, steps, counter).drop_last() =~= pre);
}

/// Synthetic identifiers are negative; the ingested store's are positive,
/// so a consequence's creations never collide with the original store.
pub proof fn lemma_new_ids_negative(c: u64)
    requires
        c < 0x4000_0000_0000_0000,
    ensures
        spec_new_id(c) < 0,
{
}

} // verus!

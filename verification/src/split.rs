//! Splitting a synthesized sidewalk at the side roads it crosses: groups of
//! (new sidewalk, road, new sidewalk) nodes with short spans between them
//! mark where one long synthesized sidewalk should become several.

use vstd::prelude::*;
use crate::classify::Kind;
use crate::store::{NodeView, WayView, Speedwalk};
use crate::idmap::id_find;

verus! {

/// How the ways at one node relate to a base sidewalk: the node joins it to
/// exactly one other new sidewalk, to roads only, or to something else.
#[derive(Clone, Copy, Debug, PartialEq, Eq, Structural)]
pub enum Spot {
    NewSidewalk(i64),
    Road,
    Other,
}

/// The other new sidewalks at this node: ways, excluding the base, that are
/// sidewalks with synthetic (negative) identifiers.
pub open spec fn new_sidewalks_at(
    ways: Seq<(i64, WayView)>,
    way_ids: Seq<i64>,
    base: i64,
) -> Seq<i64>
    decreases way_ids.len(),
{
    if way_ids.len() == 0 {
        Seq::empty()
    } else {
        new_sidewalks_at(ways, way_ids.drop_last(), base) + {
            let wid = way_ids.last();
            if wid != base && wid < 0 && (match id_find(ways, wid) {
                Some(w) => w.kind == Kind::Sidewalk,
                None => false,
            }) {
                seq![wid]
            } else {
                Seq::empty()
            }
        }
    }
}

/// How many ways at this node, excluding the base, are not new sidewalks.
pub open spec fn roads_at(ways: Seq<(i64, WayView)>, way_ids: Seq<i64>, base: i64) -> nat
    decreases way_ids.len(),
{
    if way_ids.len() == 0 {
        0
    } else {
        roads_at(ways, way_ids.drop_last(), base) + {
            let wid = way_ids.last();
            if wid != base && !(wid < 0 && (match id_find(ways, wid) {
                Some(w) => w.kind == Kind::Sidewalk,
                None => false,
            })) {
                1nat
            } else {
                0nat
            }
        }
    }
}

/// Classify one node with respect to the base way.
pub open spec fn spec_spot(
    nodes: Seq<(i64, NodeView)>,
    ways: Seq<(i64, WayView)>,
    nid: i64,
    base: i64,
) -> Spot {
    match id_find(nodes, nid) {
        Some(nd) => {
            let news = new_sidewalks_at(ways, nd.way_ids, base);
            let roads = roads_at(ways, nd.way_ids, base);
            if news.len() == 1 && roads == 0 {
                Spot::NewSidewalk(news[0])
            } else if news.len() == 0 && roads > 0 {
                Spot::Road
            } else {
                Spot::Other
            }
        },
        None => Spot::Other,
    }
}

pub ghost struct SplitAcc {
    pub cur: Seq<i64>,
    pub out: Seq<Seq<i64>>,
    pub skip: nat,
}

/// One pass over the node triples of the base way: a (new sidewalk, road,
/// new sidewalk) triple cuts the accumulated chunk there and starts the next
/// one at the far sidewalk node.
pub open spec fn split_walk(
    nodes: Seq<(i64, NodeView)>,
    ways: Seq<(i64, WayView)>,
    base: i64,
    ids: Seq<i64>,
    i: int,
    acc: SplitAcc,
) -> SplitAcc
    decreases ids.len() - i,
{
    if i < 0 || i + 3 > ids.len() {
        acc
    } else if acc.skip > 0 {
        split_walk(
            nodes,
            ways,
            base,
            ids,
            i + 1,
            SplitAcc { skip: (acc.skip - 1) as nat, ..acc },
        )
    } else if (spec_spot(nodes, ways, ids[i], base) is NewSidewalk) && spec_spot(
        nodes,
        ways,
        ids[i + 1],
        base,
    ) == Spot::Road && (spec_spot(nodes, ways, ids[i + 2], base) is NewSidewalk) {
        let out2 = if acc.cur.len() > 0 {
            acc.out.push(acc.cur.push(ids[i]))
        } else {
            acc.out
        };
        split_walk(
            nodes,
            ways,
            base,
            ids,
            i + 1,
            SplitAcc { cur: seq![ids[i + 2]], out: out2, skip: 2 },
        )
    } else {
        split_walk(
            nodes,
            ways,
            base,
            ids,
            i + 1,
            SplitAcc { cur: acc.cur.push(ids[i]), out: acc.out, skip: 0 },
        )
    }
}

/// Remove consecutive duplicates.
pub open spec fn dedup_adjacent(s: Seq<i64>) -> Seq<i64>
    decreases s.len(),
{
    if s.len() == 0 {
        s
    } else {
        let p = dedup_adjacent(s.drop_last());
        if p.len() > 0 && p.last() == s.last() {
            p
        } else {
            p.push(s.last())
        }
    }
}

/// The chunks the base way's node list splits into: empty when no cut was
/// found (a single chunk is no change at all).
pub open spec fn spec_split_chunks(
    nodes: Seq<(i64, NodeView)>,
    ways: Seq<(i64, WayView)>,
    base: i64,
) -> Seq<Seq<i64>> {
    match id_find(ways, base) {
        Some(w) => {
            let ids = w.node_ids;
            let walked = split_walk(
                nodes,
                ways,
                base,
                ids,
                0,
                SplitAcc { cur: Seq::empty(), out: Seq::empty(), skip: 0 },
            );
            let cur2 = if ids.len() >= 3 {
                dedup_adjacent(walked.cur.push(ids[ids.len() - 2]).push(ids[ids.len() - 1]))
            } else {
                walked.cur
            };
            let out2 = if cur2.len() > 1 {
                walked.out.push(cur2)
            } else {
                walked.out
            };
            if out2.len() == 1 {
                Seq::empty()
            } else {
                out2
            }
        },
        None => Seq::empty(),
    }
}

/// What a split decides: chunks of node identifiers for the replacement
/// sidewalk ways, and the base way to retire into the first chunk.
pub struct Changes {
    pub delete_new_sidewalks: Vec<i64>,
    pub create_new_sidewalks: Vec<Vec<i64>>,
}

impl Speedwalk {
    fn spot_exec(&self, nid: i64, base: i64) -> (r: Spot)
        ensures
            r == spec_spot(self.derived_nodes@, self.derived_ways@, nid, base),
    {
        let ghost ways = self.derived_ways@;
        match self.derived_nodes.get(nid) {
            Some(nd) => {
                let ghost wids = nd@.way_ids;
                let n = nd.way_ids.len();
                let mut news: Vec<i64> = Vec::new();
                let mut roads: u64 = 0;
                let mut i: usize = 0;
                proof {
                    assert(wids.subrange(0, 0) =~= Seq::<i64>::empty());
                    assert(news@ =~= new_sidewalks_at(ways, wids.subrange(0, 0), base));
                }
                while i < n
                    invariant
                        n == wids.len(),
                        nd@.way_ids == wids,
                        self.derived_ways@ == ways,
                        i <= n,
                        news@ == new_sidewalks_at(ways, wids.subrange(0, i as int), base),
                        roads == roads_at(ways, wids.subrange(0, i as int), base),
                        roads <= i,
                    decreases n - i,
                {
                    proof {
                        let cur = wids.subrange(0, i as int + 1);
                        assert(cur.drop_last() =~= wids.subrange(0, i as int));
                        assert(cur.last() == wids[i as int]);
                    }
                    let wid = nd.way_ids[i];
                    let is_new_sidewalk = wid != base && wid < 0 && (match self.derived_ways.get(
                        wid,
                    ) {
                        Some(w) => match w.kind {
                            Kind::Sidewalk => true,
                            _ => false,
                        },
                        None => false,
                    });
                    if is_new_sidewalk {
                        news.push(wid);
                        proof {
                            assert(news@ =~= new_sidewalks_at(
                                ways,
                                wids.subrange(0, i as int),
                                base,
                            ) + seq![wid]);
                        }
                    } else if wid != base {
                        roads = roads + 1;
                        proof {
                            assert(news@ =~= new_sidewalks_at(
                                ways,
                                wids.subrange(0, i as int),
                                base,
                            ) + Seq::<i64>::empty());
                        }
                    } else {
                        proof {
                            assert(news@ =~= new_sidewalks_at(
                                ways,
                                wids.subrange(0, i as int),
                                base,
                            ) + Seq::<i64>::empty());
                        }
                    }
                    i += 1;
                }
                proof {
                    assert(wids.subrange(0, n as int) =~= wids);
                }
                if news.len() == 1 && roads == 0 {
                    Spot::NewSidewalk(news[0])
                } else if news.len() == 0 && roads > 0 {
                    Spot::Road
                } else {
                    Spot::Other
                }
            },
            None => Spot::Other,
        }
    }

    /// Find where a synthesized sidewalk should be cut at side roads. The
    /// returned chunks are exactly `spec_split_chunks` of the derived store;
    /// when no cut exists both lists are empty and nothing changes.
    pub fn split_at_side_roads(&self, way: i64) -> (r: Changes)
        ensures
            r.create_new_sidewalks@.map_values(|v: Vec<i64>| v@) == spec_split_chunks(
                self.derived_nodes@,
                self.derived_ways@,
                way,
            ),
            r.delete_new_sidewalks@ == if spec_split_chunks(
                self.derived_nodes@,
                self.derived_ways@,
                way,
            ).len() == 0 {
                Seq::<i64>::empty()
            } else {
                seq![way]
            },
    {
        let ghost nodes = self.derived_nodes@;
        let ghost ways = self.derived_ways@;
        let found = self.derived_ways.get(way);
        let w = match found {
            Some(w) => w,
            None => {
                proof {
                    assert(spec_split_chunks(nodes, ways, way) =~= Seq::<Seq<i64>>::empty());
                }
                return Changes {
                    delete_new_sidewalks: Vec::new(),
                    create_new_sidewalks: Vec::new(),
                };
            },
        };
        let ghost ids = w@.node_ids;
        let n = w.node_ids.len();

        let mut cur: Vec<i64> = Vec::new();
        let mut out: Vec<Vec<i64>> = Vec::new();
        let mut skip: u64 = 0;
        let mut i: usize = 0;
        let ghost acc0 = SplitAcc { cur: Seq::empty(), out: Seq::empty(), skip: 0 };
        proof {
            assert(cur@ =~= acc0.cur);
            assert(out@.map_values(|v: Vec<i64>| v@) =~= acc0.out);
        }
        while n >= 3 && i <= n - 3
            invariant
                n == ids.len(),
                w@.node_ids == ids,
                self.derived_nodes@ == nodes,
                self.derived_ways@ == ways,
                i + 3 <= n + 3,
                split_walk(nodes, ways, way, ids, 0, acc0) == split_walk(
                    nodes,
                    ways,
                    way,
                    ids,
                    i as int,
                    SplitAcc {
                        cur: cur@,
                        out: out@.map_values(|v: Vec<i64>| v@),
                        skip: skip as nat,
                    },
                ),
            decreases n - i,
        {
            let ghost acc_now = SplitAcc {
                cur: cur@,
                out: out@.map_values(|v: Vec<i64>| v@),
                skip: skip as nat,
            };
            if skip > 0 {
                skip = skip - 1;
                proof {
                    assert(split_walk(nodes, ways, way, ids, i as int, acc_now) == split_walk(
                        nodes,
                        ways,
                        way,
                        ids,
                        i as int + 1,
                        SplitAcc { skip: (acc_now.skip - 1) as nat, ..acc_now },
                    ));
                    assert(SplitAcc {
                        cur: cur@,
                        out: out@.map_values(|v: Vec<i64>| v@),
                        skip: skip as nat,
                    } == (SplitAcc { skip: (acc_now.skip - 1) as nat, ..acc_now }));
                }
            } else {
                let s0 = self.spot_exec(w.node_ids[i], way);
                let s1 = self.spot_exec(w.node_ids[i + 1], way);
                let s2 = self.spot_exec(w.node_ids[i + 2], way);
                let cut = (match s0 {
                    Spot::NewSidewalk(_) => true,
                    _ => false,
                }) && (match s1 {
                    Spot::Road => true,
                    _ => false,
                }) && (match s2 {
                    Spot::NewSidewalk(_) => true,
                    _ => false,
                });
                if cut {
                    if cur.len() > 0 {
                        cur.push(w.node_ids[i]);
                        out.push(cur);
                    }
                    cur = Vec::new();
                    cur.push(w.node_ids[i + 2]);
                    skip = 2;
                    proof {
                        let acc_next = SplitAcc {
                            cur: cur@,
                            out: out@.map_values(|v: Vec<i64>| v@),
                            skip: skip as nat,
                        };
                        assert(cur@ =~= seq![ids[i as int + 2]]);
                        if acc_now.cur.len() > 0 {
                            assert(out@.map_values(|v: Vec<i64>| v@) =~= acc_now.out.push(
                                acc_now.cur.push(ids[i as int]),
                            ));
                        }
                        assert(split_walk(nodes, ways, way, ids, i as int, acc_now)
                            == split_walk(nodes, ways, way, ids, i as int + 1, acc_next));
                    }
                } else {
                    cur.push(w.node_ids[i]);
                    proof {
                        let acc_next = SplitAcc {
                            cur: cur@,
                            out: out@.map_values(|v: Vec<i64>| v@),
                            skip: 0,
                        };
                        assert(cur@ =~= acc_now.cur.push(ids[i as int]));
                        assert(split_walk(nodes, ways, way, ids, i as int, acc_now)
                            == split_walk(nodes, ways, way, ids, i as int + 1, acc_next));
                    }
                }
            }
            i += 1;
        }
        proof {
            assert(split_walk(
                nodes,
                ways,
                way,
                ids,
                i as int,
                SplitAcc {
                    cur: cur@,
                    out: out@.map_values(|v: Vec<i64>| v@),
                    skip: skip as nat,
                },
            ) == (SplitAcc {
                cur: cur@,
                out: out@.map_values(|v: Vec<i64>| v@),
                skip: skip as nat,
            }));
        }
        let ghost walked = split_walk(nodes, ways, way, ids, 0, acc0);

        if n >= 3 {
            cur.push(w.node_ids[n - 2]);
            cur.push(w.node_ids[n - 1]);
            let deduped = dedup_exec(&cur);
            cur = deduped;
        }
        proof {
            if n >= 3 {
                assert(cur@ == dedup_adjacent(walked.cur.push(ids[n - 2]).push(ids[n - 1])));
            } else {
                assert(cur@ == walked.cur);
            }
        }
        if cur.len() > 1 {
            out.push(cur);
        }
        let ghost out2 = if (if ids.len() >= 3 {
            dedup_adjacent(walked.cur.push(ids[ids.len() - 2]).push(ids[ids.len() - 1]))
        } else {
            walked.cur
        }).len() > 1 {
            walked.out.push(
                if ids.len() >= 3 {
                    dedup_adjacent(walked.cur.push(ids[ids.len() - 2]).push(ids[ids.len() - 1]))
                } else {
                    walked.cur
                },
            )
        } else {
            walked.out
        };
        proof {
            assert(out@.map_values(|v: Vec<i64>| v@) =~= out2);
        }

        if out.len() == 1 {
            proof {
                assert(spec_split_chunks(nodes, ways, way) =~= Seq::<Seq<i64>>::empty());
            }
            return Changes {
                delete_new_sidewalks: Vec::new(),
                create_new_sidewalks: Vec::new(),
            };
        }
        let mut delete_new_sidewalks: Vec<i64> = Vec::new();
        if out.len() > 0 {
            delete_new_sidewalks.push(way);
            proof {
                assert(delete_new_sidewalks@ =~= seq![way]);
            }
        } else {
            proof {
                assert(spec_split_chunks(nodes, ways, way) =~= out2);
            }
        }
        Changes { delete_new_sidewalks, create_new_sidewalks: out }
    }
}

/// Remove consecutive duplicate identifiers.
fn dedup_exec(v: &Vec<i64>) -> (r: Vec<i64>)
    ensures
        r@ == dedup_adjacent(v@),
{
    let n = v.len();
    let mut r: Vec<i64> = Vec::new();
    let mut i: usize = 0;
    proof {
        assert(v@.subrange(0, 0) =~= Seq::<i64>::empty());
        assert(r@ =~= dedup_adjacent(v@.subrange(0, 0)));
    }
    while i < n
        invariant
            n == v@.len(),
            i <= n,
            r@ == dedup_adjacent(v@.subrange(0, i as int)),
        decreases n - i,
    {
        proof {
            let cur = v@.subrange(0, i as int + 1);
            assert(cur.drop_last() =~= v@.subrange(0, i as int));
            assert(cur.last() == v@[i as int]);
        }
        let rlen = r.len();
        if rlen > 0 && r[rlen - 1] == v[i] {
        } else {
            r.push(v[i]);
        }
        i += 1;
    }
    proof {
        assert(v@.subrange(0, n as int) =~= v@);
    }
    r
}

} // verus!

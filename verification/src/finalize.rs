//! The expansion of the network that makes it ready for driving: every
//! junction becomes a ring of nodes with paths across it, the two directions
//! of a road are moved apart into lanes, and the paths that cross inside an
//! intersection are recorded.

use crate::arena::Id;
use crate::conflicts::lemma_same_rows;
use crate::driver::yielding::YieldResolver;
use crate::expand::{
    approached, arriving, departing, ends_from, last_named, lemma_last_named,
    lemma_roundabout_ends, lemma_turn_rows_ends, roundabout_spec,
};
use crate::junction::{resolver_spec, Junction, JunctionView};
use crate::road::{copy_ids, ids_below, joined, lists, Intersection, Node, Road, Segment};
use crate::roundabout::{
    ascending, circle_position_spec, lemma_sorted_arm, paired, sort_arms, sorted_arms_spec, Arm,
};
use crate::turns::turn_rows_spec;
use crate::vector::Vec3;
use vstd::prelude::*;

verus! {

impl JunctionView {
    /// Whether the junction lists the segments that node `n` of `road` lists,
    /// in the same order.
    pub open spec fn matches_node(&self, road: &Road, n: int) -> bool {
        &&& self.node == n
        &&& 0 <= n < road.nodes@.len()
        &&& self.position == road.nodes@[n].position
        &&& self.entries.len() == road.nodes@[n].incoming@.len()
        &&& forall|k: int|
            0 <= k < self.entries.len() ==> (#[trigger] self.entries[k]).segment
                == road.nodes@[n].incoming@[k]
        &&& self.exits.len() == road.nodes@[n].outgoing@.len()
        &&& forall|k: int|
            0 <= k < self.exits.len() ==> (#[trigger] self.exits[k]).segment
                == road.nodes@[n].outgoing@[k]
    }
}

impl Road {
    /// The paths laid inside the junction: the segments from index `first`
    /// on, given the nodes of the rim.
    pub open spec fn inner_paths(&self, first: int) -> Seq<Segment> {
        self.segments@.subrange(first, self.segments@.len() as int)
    }

    /// Whether the nodes added for the junction list what ends and starts at
    /// them, in the order in which it was attached: a node on the rim the
    /// road it was planted for, and every node then the paths of `laid`.
    pub open spec fn ring_wired(
        &self,
        before: &Road,
        junction: JunctionView,
        laid: Seq<(Segment, Vec3)>,
    ) -> bool {
        let base = before.nodes@.len() as int;
        let entries = junction.entries;
        let exits = junction.exits;
        let inner = self.intersections@.last().incoming@;
        forall|m: int|
            base <= m < self.nodes@.len() ==> {
                &&& (#[trigger] self.nodes@[m]).incoming@ == (if m < base + entries.len() {
                    seq![entries[m - base].segment]
                } else {
                    Seq::empty()
                }) + arriving(laid, inner, m, laid.len() as int)
                &&& self.nodes@[m].outgoing@ == (if base + entries.len() <= m < base
                    + entries.len() + exits.len() {
                    seq![exits[m - base - entries.len()].segment]
                } else {
                    Seq::empty()
                }) + departing(laid, inner, m, laid.len() as int)
            }
    }

    /// What the expansion of a plain intersection lays: a path from every
    /// arriving road to every leaving road but the one that leads back.
    pub open spec fn crossed(&self, before: &Road, junction: JunctionView) -> bool {
        let x = self.intersections@.last();
        let count = junction.entries.len() as int;
        let laid = turn_rows_spec(
            junction.entries,
            x.edge_nodes@.take(count),
            junction.exits,
            x.edge_nodes@.skip(count),
            count,
        );
        &&& self.nodes@.len() == before.nodes@.len() + count + junction.exits.len()
        &&& self.inner_paths(before.segments@.len() as int) == laid.map_values(
            |p: (Segment, Vec3)| p.0,
        )
        &&& x.entry_directions@ == laid.map_values(|p: (Segment, Vec3)| p.1)
        &&& self.ring_wired(before, junction, laid)
    }

    /// What the expansion of a roundabout lays, for the arriving and the
    /// leaving roads in ascending order of their angles: a node on the
    /// circle for each arriving road, the ramps onto the circle, the circle,
    /// and the ramps off it.
    pub open spec fn circled(&self, before: &Road, junction: JunctionView) -> bool {
        let x = self.intersections@.last();
        let count = junction.entries.len() as int;
        let rim = before.nodes@.len() + count + junction.exits.len();
        let entries = sorted_arms_spec(paired(junction.entries, x.edge_nodes@.take(count)), count);
        let exits = sorted_arms_spec(
            paired(junction.exits, x.edge_nodes@.skip(count)),
            junction.exits.len() as int,
        );
        let circle = Seq::new(count as nat, |k: int| Id::<Node>::of((rim + k) as usize));
        let laid = roundabout_spec(junction.position, entries, circle, exits);
        &&& self.nodes@.len() == rim + count
        &&& forall|k: int|
            0 <= k < count ==> (#[trigger] self.nodes@[rim + k]).planted(
                circle_position_spec(junction.position, entries[k].0.angle),
            )
        &&& self.inner_paths(before.segments@.len() as int) == laid.map_values(
            |p: (Segment, Vec3)| p.0,
        )
        &&& x.entry_directions@ == laid.map_values(|p: (Segment, Vec3)| p.1)
        &&& self.ring_wired(before, junction, laid)
    }

    /// The state after the junction was expanded.
    pub open spec fn expanded(&self, before: &Road, junction: JunctionView) -> bool {
        let n = junction.node;
        let base = before.nodes@.len() as int;
        let first = before.segments@.len() as int;
        let entries = junction.entries;
        let exits = junction.exits;
        let x = self.intersections@.last();
        &&& self.nodes@.len() >= base + entries.len() + exits.len()
        &&& self.segments@.len() >= first
        &&& self.intersections@.len() == before.intersections@.len() + 1
        &&& forall|i: int|
            0 <= i < before.intersections@.len() ==> self.intersections@[i]
                == before.intersections@[i]
        // the nodes that were there
        &&& forall|m: int|
            0 <= m < base && m != n ==> (#[trigger] self.nodes@[m]).same_as(&before.nodes@[m])
        &&& self.nodes@[n].same_point(&before.nodes@[n])
        &&& self.nodes@[n].incoming@.len() == 0
        &&& self.nodes@[n].outgoing@.len() == 0
        // the rim
        &&& forall|k: int|
            0 <= k < entries.len() ==> {
                &&& (#[trigger] self.nodes@[base + k]).planted(entries[k].position)
                &&& lists(self.nodes@[base + k].incoming@, entries[k].segment.id as int)
            }
        &&& forall|k: int|
            0 <= k < exits.len() ==> {
                &&& (#[trigger] self.nodes@[base + entries.len() + k]).planted(exits[k].position)
                &&& lists(
                    self.nodes@[base + entries.len() + k].outgoing@,
                    exits[k].segment.id as int,
                )
            }
        // the segments that were there
        &&& forall|s: int|
            0 <= s < first ==> {
                &&& (#[trigger] self.segments@[s]).same_path(&before.segments@[s])
                &&& if approached(entries, s) {
                    self.segments@[s].to.id == base + last_named(
                        entries,
                        s,
                        entries.len() as int,
                    )
                } else {
                    self.segments@[s].to == before.segments@[s].to
                }
                &&& if approached(exits, s) {
                    self.segments@[s].from.id == base + entries.len() + last_named(
                        exits,
                        s,
                        exits.len() as int,
                    )
                } else {
                    self.segments@[s].from == before.segments@[s].from
                }
            }
        // the paths inside
        &&& forall|s: int|
            first <= s < self.segments@.len() ==> (#[trigger] self.segments@[s]).from.id >= base
                && self.segments@[s].to.id >= base && self.fits(self.segments@[s])
        // the record
        &&& x.position == junction.position
        &&& x.yield_resolver == junction.resolver
        &&& x.arrival_counter == 0
        &&& x.conflicts@.len() == 0
        &&& x.incoming@ == x.outgoing@
        &&& x.entry_directions@.len() == x.incoming@.len()
        &&& x.incoming@.len() == self.segments@.len() - first
        &&& forall|k: int| 0 <= k < x.incoming@.len() ==> (#[trigger] x.incoming@[k]).id == first + k
        &&& x.edge_nodes@.len() == entries.len() + exits.len()
        &&& forall|k: int|
            0 <= k < x.edge_nodes@.len() ==> (#[trigger] x.edge_nodes@[k]).id == base + k
        &&& match junction.resolver {
            YieldResolver::RightOfWay => self.crossed(before, junction),
            YieldResolver::Roundabout => self.circled(before, junction),
        }
    }
}

impl Road {
    /// Expands one junction: plants a node on the rim for every road that
    /// arrives or leaves and lets the road end or start there, lays the paths
    /// inside, records the intersection, and empties the lists of the node at
    /// the centre, which no segment uses any more.
    #[verifier::rlimit(40)]
    pub fn expand(&mut self, junction: &Junction)
        requires
            old(self).wf(),
            junction@.matches_node(old(self), junction.node.id as int),
        ensures
            final(self).wf(),
            final(self).expanded(old(self), junction@),
    {
        let ghost n = junction.node.id as int;
        let ghost base = self.nodes@.len() as int;
        let ghost first = self.segments@.len() as int;
        proof {
            assert(self.nodes@[n].wf(first));
        }
        let entry_ring = self.plant_entries(&junction.entries);
        let ghost s1 = *self;
        let exit_ring = self.plant_exits(&junction.exits);
        let ghost s2 = *self;
        proof {
            lemma_planted_both(old(self), &s1, &s2, junction@, entry_ring@, exit_ring@);
        }
        let ghost mut sorted_entries: Seq<Arm> = Seq::empty();
        let ghost mut sorted_exits: Seq<Arm> = Seq::empty();
        let ghost mut circle_nodes: Seq<Id<Node>> = Seq::empty();
        let ghost mut laid: Seq<(Segment, Vec3)> = Seq::empty();
        let ghost mut s3 = *self;
        let (inner, directions) = match junction.resolver {
            YieldResolver::RightOfWay => {
                proof {
                    laid = turn_rows_spec(
                        junction.entries@,
                        entry_ring@,
                        junction.exits@,
                        exit_ring@,
                        junction.entries@.len() as int,
                    );
                    lemma_turn_rows_ends(
                        junction.entries@,
                        entry_ring@,
                        junction.exits@,
                        exit_ring@,
                        junction.entries@.len() as int,
                        base,
                    );
                    assert forall|k: int| 0 <= k < entry_ring@.len() implies self.stands_at(
                        #[trigger] entry_ring@[k],
                        junction.entries@[k].position,
                    ) by {
                        assert(s2.nodes@[base + k].planted(junction.entries@[k].position));
                    }
                    assert forall|k: int| 0 <= k < exit_ring@.len() implies self.stands_at(
                        #[trigger] exit_ring@[k],
                        junction.exits@[k].position,
                    ) by {
                        assert(s2.nodes@[base + junction.entries@.len() + k].planted(
                            junction.exits@[k].position,
                        ));
                    }
                }
                self.lay_turns(&junction.entries, &entry_ring, &junction.exits, &exit_ring)
            },
            YieldResolver::Roundabout => {
                let entries = sort_arms(&junction.entries, &entry_ring);
                let exits = sort_arms(&junction.exits, &exit_ring);
                let circle = self.plant_circle(junction.position, &entries);
                proof {
                    s3 = *self;
                    sorted_entries = entries@;
                    sorted_exits = exits@;
                    circle_nodes = circle@;
                    laid = roundabout_spec(junction.position, entries@, circle@, exits@);
                    assert forall|k: int| 0 <= k < entries@.len() implies base <= (
                    #[trigger] entries@[k]).1.id < s2.nodes@.len() && self.stands_at(
                        entries@[k].1,
                        entries@[k].0.position,
                    ) by {
                        lemma_sorted_arm(junction.entries@, entry_ring@, entries@, k);
                        let i = choose|i: int|
                            0 <= i < junction.entries@.len() && entries@[k].0
                                == #[trigger] junction.entries@[i] && entries@[k].1
                                == entry_ring@[i];
                        assert(s2.nodes@[base + i].planted(junction.entries@[i].position));
                    }
                    assert forall|k: int| 0 <= k < exits@.len() implies base <= (
                    #[trigger] exits@[k]).1.id < s2.nodes@.len() && self.stands_at(
                        exits@[k].1,
                        exits@[k].0.position,
                    ) by {
                        lemma_sorted_arm(junction.exits@, exit_ring@, exits@, k);
                        let i = choose|i: int|
                            0 <= i < junction.exits@.len() && exits@[k].0
                                == #[trigger] junction.exits@[i] && exits@[k].1 == exit_ring@[i];
                        assert(s2.nodes@[base + junction.entries@.len() + i].planted(
                            junction.exits@[i].position,
                        ));
                    }
                    assert forall|k: int| 0 <= k < circle@.len() implies self.stands_at(
                        #[trigger] circle@[k],
                        circle_position_spec(junction.position, entries@[k].0.angle),
                    ) by {
                        assert(self.nodes@[s2.nodes@.len() + k].planted(
                            circle_position_spec(junction.position, entries@[k].0.angle),
                        ));
                    }
                    lemma_roundabout_ends(junction.position, entries@, circle@, exits@, base);
                }
                self.lay_roundabout(junction.position, &entries, &circle, &exits)
            },
        };
        let ghost s4 = *self;
        let ghost inner_ids = inner@;
        let ghost headings = directions@;
        proof {
            lemma_inner_ids(&s3, &s4, laid, inner_ids, headings);
        }
        let edge_nodes = joined(&entry_ring, &exit_ring);
        let record = Intersection {
            position: junction.position,
            incoming: copy_ids(&inner),
            outgoing: inner,
            edge_nodes,
            conflicts: Vec::new(),
            entry_directions: directions,
            yield_resolver: junction.resolver,
            arrival_counter: 0,
        };
        self.add_intersection(record);
        let ghost s5 = *self;
        proof {
            assert(s5.intersections@.drop_last() =~= s4.intersections@);
            assert(s5.grown(old(self), &s2, &s3, &s4, junction@, entry_ring@, exit_ring@, laid));
            lemma_unused_centre(old(self), &s2, &s3, &s4, &s5, junction@, entry_ring@, exit_ring@, laid);
        }
        self.clear_connections(junction.node);
        proof {
            lemma_expanded(
                old(self),
                &s2,
                &s3,
                &s4,
                &s5,
                self,
                junction@,
                entry_ring@,
                exit_ring@,
                laid,
                sorted_entries,
                sorted_exits,
                circle_nodes,
            );
        }
    }
}

/// The state after the nodes of the rim were planted, first for the
/// arriving roads and then for the leaving ones.
pub open spec fn rimmed(s0: &Road, s2: &Road, junction: JunctionView, entry_ring: Seq<Id<Node>>, exit_ring: Seq<Id<Node>>) -> bool {
    let base = s0.nodes@.len() as int;
    let entries = junction.entries;
    let exits = junction.exits;
    &&& s2.wf()
    &&& s2.intersections@ == s0.intersections@
    &&& s2.segments@.len() == s0.segments@.len()
    &&& s2.nodes@.len() == base + entries.len() + exits.len()
    &&& entry_ring.len() == entries.len()
    &&& exit_ring.len() == exits.len()
    &&& forall|k: int| 0 <= k < entry_ring.len() ==> (#[trigger] entry_ring[k]).id == base + k
    &&& forall|k: int|
        0 <= k < exit_ring.len() ==> (#[trigger] exit_ring[k]).id == base + entries.len() + k
    &&& forall|m: int| 0 <= m < base ==> (#[trigger] s2.nodes@[m]).same_as(&s0.nodes@[m])
    &&& forall|k: int|
        0 <= k < entries.len() ==> {
            &&& (#[trigger] s2.nodes@[base + k]).planted(entries[k].position)
            &&& s2.nodes@[base + k].incoming@ == seq![entries[k].segment]
            &&& s2.nodes@[base + k].outgoing@.len() == 0
        }
    &&& forall|k: int|
        0 <= k < exits.len() ==> {
            &&& (#[trigger] s2.nodes@[base + entries.len() + k]).planted(exits[k].position)
            &&& s2.nodes@[base + entries.len() + k].outgoing@ == seq![exits[k].segment]
            &&& s2.nodes@[base + entries.len() + k].incoming@.len() == 0
        }
    &&& forall|s: int|
        0 <= s < s2.segments@.len() ==> {
            &&& (#[trigger] s2.segments@[s]).same_path(&s0.segments@[s])
            &&& if approached(entries, s) {
                s2.segments@[s].to.id == base + last_named(entries, s, entries.len() as int)
            } else {
                s2.segments@[s].to == s0.segments@[s].to
            }
            &&& if approached(exits, s) {
                s2.segments@[s].from.id == base + entries.len() + last_named(
                    exits,
                    s,
                    exits.len() as int,
                )
            } else {
                s2.segments@[s].from == s0.segments@[s].from
            }
        }
}

#[verifier::rlimit(40)]
proof fn lemma_planted_both(
    s0: &Road,
    s1: &Road,
    s2: &Road,
    junction: JunctionView,
    entry_ring: Seq<Id<Node>>,
    exit_ring: Seq<Id<Node>>,
)
    requires
        s0.wf(),
        s1.wf(),
        s2.wf(),
        junction.matches_node(s0, junction.node),
        s1.planted(s0, junction.entries, entry_ring),
        s2.planted(s1, junction.exits, exit_ring),
        forall|k: int|
            0 <= k < junction.entries.len() ==> {
                &&& (#[trigger] s1.nodes@[s0.nodes@.len() + k]).incoming@ == seq![
                    junction.entries[k].segment,
                ]
                &&& s1.nodes@[s0.nodes@.len() + k].outgoing@.len() == 0
            },
        forall|s: int|
            0 <= s < s1.segments@.len() ==> {
                &&& (#[trigger] s1.segments@[s]).same_path(&s0.segments@[s])
                &&& s1.segments@[s].from == s0.segments@[s].from
                &&& if approached(junction.entries, s) {
                    s1.segments@[s].to.id == s0.nodes@.len() + last_named(
                        junction.entries,
                        s,
                        junction.entries.len() as int,
                    )
                } else {
                    s1.segments@[s].to == s0.segments@[s].to
                }
            },
        forall|k: int|
            0 <= k < junction.exits.len() ==> {
                &&& (#[trigger] s2.nodes@[s1.nodes@.len() + k]).outgoing@ == seq![
                    junction.exits[k].segment,
                ]
                &&& s2.nodes@[s1.nodes@.len() + k].incoming@.len() == 0
            },
        forall|s: int|
            0 <= s < s2.segments@.len() ==> {
                &&& (#[trigger] s2.segments@[s]).same_path(&s1.segments@[s])
                &&& s2.segments@[s].to == s1.segments@[s].to
                &&& if approached(junction.exits, s) {
                    s2.segments@[s].from.id == s1.nodes@.len() + last_named(
                        junction.exits,
                        s,
                        junction.exits.len() as int,
                    )
                } else {
                    s2.segments@[s].from == s1.segments@[s].from
                }
            },
    ensures
        rimmed(s0, s2, junction, entry_ring, exit_ring),
{
    let base = s0.nodes@.len() as int;
    let entries = junction.entries;
    let exits = junction.exits;
    assert forall|m: int| 0 <= m < base implies (#[trigger] s2.nodes@[m]).same_as(
        &s0.nodes@[m],
    ) by {
        assert(s1.nodes@[m].same_as(&s0.nodes@[m]));
        assert(s2.nodes@[m].same_as(&s1.nodes@[m]));
    }
    assert forall|k: int| 0 <= k < entries.len() implies {
        &&& (#[trigger] s2.nodes@[base + k]).planted(entries[k].position)
        &&& s2.nodes@[base + k].incoming@ == seq![entries[k].segment]
        &&& s2.nodes@[base + k].outgoing@.len() == 0
    } by {
        assert(s1.nodes@[base + k].planted(entries[k].position));
        assert(s2.nodes@[base + k].same_as(&s1.nodes@[base + k]));
    }
    assert forall|k: int| 0 <= k < exits.len() implies {
        &&& (#[trigger] s2.nodes@[base + entries.len() + k]).planted(exits[k].position)
        &&& s2.nodes@[base + entries.len() + k].outgoing@ == seq![exits[k].segment]
        &&& s2.nodes@[base + entries.len() + k].incoming@.len() == 0
    } by {
        assert(s2.nodes@[s1.nodes@.len() + k].planted(exits[k].position));
    }
    assert forall|s: int| 0 <= s < s2.segments@.len() implies {
        &&& (#[trigger] s2.segments@[s]).same_path(&s0.segments@[s])
        &&& if approached(entries, s) {
            s2.segments@[s].to.id == base + last_named(entries, s, entries.len() as int)
        } else {
            s2.segments@[s].to == s0.segments@[s].to
        }
        &&& if approached(exits, s) {
            s2.segments@[s].from.id == base + entries.len() + last_named(
                exits,
                s,
                exits.len() as int,
            )
        } else {
            s2.segments@[s].from == s0.segments@[s].from
        }
    } by {
        assert(s1.segments@[s].same_path(&s0.segments@[s]));
        assert(s2.segments@[s].same_path(&s1.segments@[s]));
    }
}

/// What a laying tells of the indices it returns.
proof fn lemma_inner_ids(
    s3: &Road,
    s4: &Road,
    laid: Seq<(Segment, Vec3)>,
    inner: Seq<Id<Segment>>,
    headings: Seq<Vec3>,
)
    requires
        s4.laid(s3, laid, inner, headings),
    ensures
        s4.segments@.len() == s3.segments@.len() + laid.len(),
        s4.nodes@.len() == s3.nodes@.len(),
        s4.intersections@ == s3.intersections@,
        inner.len() == laid.len(),
        headings.len() == laid.len(),
        ids_below(inner, s4.segments@.len() as int),
        forall|k: int| 0 <= k < inner.len() ==> (#[trigger] inner[k]).id == s3.segments@.len() + k,
{
    reveal(Road::laid);
}

impl Road {
    /// How the state after the record was added relates to the states that
    /// led to it.
    pub open spec fn grown(
        &self,
        s0: &Road,
        s2: &Road,
        s3: &Road,
        s4: &Road,
        junction: JunctionView,
        entry_ring: Seq<Id<Node>>,
        exit_ring: Seq<Id<Node>>,
        laid: Seq<(Segment, Vec3)>,
    ) -> bool {
        let x = self.intersections@.last();
        &&& s0.wf()
        &&& junction.matches_node(s0, junction.node)
        &&& rimmed(s0, s2, junction, entry_ring, exit_ring)
        &&& s3.segments@ == s2.segments@
        &&& s3.intersections@ == s2.intersections@
        &&& s3.nodes@.len() >= s2.nodes@.len()
        &&& forall|m: int| 0 <= m < s2.nodes@.len() ==> s3.nodes@[m] == s2.nodes@[m]
        &&& s4.laid(s3, laid, x.incoming@, x.entry_directions@)
        &&& ends_from(laid, s0.nodes@.len() as int)
        &&& self.wf()
        &&& self.nodes@ == s4.nodes@
        &&& self.segments@ == s4.segments@
        &&& self.intersections@.len() == s4.intersections@.len() + 1
        &&& self.intersections@.drop_last() == s4.intersections@
        &&& x.position == junction.position
        &&& x.yield_resolver == junction.resolver
        &&& x.arrival_counter == 0
        &&& x.conflicts@.len() == 0
        &&& x.incoming@ == x.outgoing@
        &&& x.edge_nodes@ == entry_ring + exit_ring
    }
}

/// Once the roads of a junction end and start on its rim, no segment uses
/// the node at its centre.
#[verifier::rlimit(40)]
proof fn lemma_unused_centre(
    s0: &Road,
    s2: &Road,
    s3: &Road,
    s4: &Road,
    s5: &Road,
    junction: JunctionView,
    entry_ring: Seq<Id<Node>>,
    exit_ring: Seq<Id<Node>>,
    laid: Seq<(Segment, Vec3)>,
)
    requires
        s5.grown(s0, s2, s3, s4, junction, entry_ring, exit_ring, laid),
    ensures
        s5.unused(junction.node),
{
    reveal(Road::laid);
    let n = junction.node;
    let first = s0.segments@.len() as int;
    assert forall|s: int| 0 <= s < s5.segments@.len() implies (#[trigger] s5.segments@[s]).from.id
        != n && s5.segments@[s].to.id != n by {
        if s < first {
            assert(s5.segments@[s] == s2.segments@[s]);
            assert(s2.segments@[s].same_path(&s0.segments@[s]));
            assert(s0.wired(s));
            lemma_last_named(junction.entries, s, junction.entries.len() as int);
            lemma_last_named(junction.exits, s, junction.exits.len() as int);
            assert(junction.entries.take(junction.entries.len() as int) =~= junction.entries);
            assert(junction.exits.take(junction.exits.len() as int) =~= junction.exits);
            if s0.segments@[s].to.id == n {
                let k = choose|k: int|
                    0 <= k < s0.nodes@[n].incoming@.len() && (
                    #[trigger] s0.nodes@[n].incoming@[k]).id == s;
                assert(junction.entries[k].segment.id == s);
            }
            if s0.segments@[s].from.id == n {
                let k = choose|k: int|
                    0 <= k < s0.nodes@[n].outgoing@.len() && (
                    #[trigger] s0.nodes@[n].outgoing@[k]).id == s;
                assert(junction.exits[k].segment.id == s);
            }
        } else {
            assert(s5.segments@[s] == laid[s - first].0);
        }
    }
}

#[verifier::rlimit(40)]
proof fn lemma_expanded(
    s0: &Road,
    s2: &Road,
    s3: &Road,
    s4: &Road,
    s5: &Road,
    s6: &Road,
    junction: JunctionView,
    entry_ring: Seq<Id<Node>>,
    exit_ring: Seq<Id<Node>>,
    laid: Seq<(Segment, Vec3)>,
    sorted_entries: Seq<Arm>,
    sorted_exits: Seq<Arm>,
    circle: Seq<Id<Node>>,
)
    requires
        s5.grown(s0, s2, s3, s4, junction, entry_ring, exit_ring, laid),
        s6.segments@ == s5.segments@,
        s6.intersections@ == s5.intersections@,
        s6.nodes@.len() == s5.nodes@.len(),
        forall|m: int|
            0 <= m < s6.nodes@.len() && m != junction.node ==> (#[trigger] s6.nodes@[m]).same_as(
                &s5.nodes@[m],
            ),
        s6.nodes@[junction.node].same_point(&s5.nodes@[junction.node]),
        s6.nodes@[junction.node].incoming@.len() == 0,
        s6.nodes@[junction.node].outgoing@.len() == 0,
        junction.resolver is RightOfWay ==> s3.nodes@.len() == s2.nodes@.len() && laid
            == turn_rows_spec(
            junction.entries,
            entry_ring,
            junction.exits,
            exit_ring,
            junction.entries.len() as int,
        ),
        junction.resolver is Roundabout ==> {
            &&& sorted_entries == sorted_arms_spec(
                paired(junction.entries, entry_ring),
                junction.entries.len() as int,
            )
            &&& sorted_exits == sorted_arms_spec(
                paired(junction.exits, exit_ring),
                junction.exits.len() as int,
            )
            &&& sorted_entries.len() == junction.entries.len()
            &&& circle.len() == sorted_entries.len()
            &&& s3.nodes@.len() == s2.nodes@.len() + circle.len()
            &&& forall|k: int|
                0 <= k < circle.len() ==> (#[trigger] circle[k]).id == s2.nodes@.len() + k
            &&& forall|k: int|
                0 <= k < circle.len() ==> {
                    &&& (#[trigger] s3.nodes@[s2.nodes@.len() + k]).planted(
                        circle_position_spec(junction.position, sorted_entries[k].0.angle),
                    )
                    &&& s3.nodes@[s2.nodes@.len() + k].incoming@.len() == 0
                    &&& s3.nodes@[s2.nodes@.len() + k].outgoing@.len() == 0
                }
            &&& laid == roundabout_spec(junction.position, sorted_entries, circle, sorted_exits)
        },
    ensures
        s6.expanded(s0, junction),
{
    reveal(Road::laid);
    let n = junction.node;
    let base = s0.nodes@.len() as int;
    let first = s0.segments@.len() as int;
    let entries = junction.entries;
    let exits = junction.exits;
    let x = s6.intersections@.last();
    assert(n < base);
    assert forall|i: int| 0 <= i < s0.intersections@.len() implies s6.intersections@[i]
        == s0.intersections@[i] by {
        assert(s5.intersections@.drop_last()[i] == s5.intersections@[i]);
    }
    assert forall|m: int| 0 <= m < base && m != n implies (#[trigger] s6.nodes@[m]).same_as(
        &s0.nodes@[m],
    ) by {
        assert(s6.nodes@[m].same_as(&s5.nodes@[m]));
        assert(s2.nodes@[m].same_as(&s0.nodes@[m]));
        assert(s3.nodes@[m] == s2.nodes@[m]);
        assert forall|k: int| 0 <= k < laid.len() implies (#[trigger] laid[k]).0.from.id != m
            && laid[k].0.to.id != m by {}
        assert(s4.nodes@[m].same_as(&s3.nodes@[m]));
    }
    assert(s6.nodes@[n].same_point(&s0.nodes@[n])) by {
        assert(s2.nodes@[n].same_as(&s0.nodes@[n]));
        assert(s3.nodes@[n] == s2.nodes@[n]);
        assert(s4.nodes@[n].same_point(&s3.nodes@[n]));
    }
    assert forall|k: int| 0 <= k < entries.len() implies {
        &&& (#[trigger] s6.nodes@[base + k]).planted(entries[k].position)
        &&& lists(s6.nodes@[base + k].incoming@, entries[k].segment.id as int)
    } by {
        let m = base + k;
        assert(s2.nodes@[m].planted(entries[k].position));
        assert(s2.nodes@[m].incoming@[0] == entries[k].segment);
        assert(lists(s2.nodes@[m].incoming@, entries[k].segment.id as int));
        assert(s3.nodes@[m] == s2.nodes@[m]);
        assert(s4.nodes@[m].same_point(&s3.nodes@[m]));
        assert(s6.nodes@[m].same_as(&s5.nodes@[m]));
    }
    assert forall|k: int| 0 <= k < exits.len() implies {
        &&& (#[trigger] s6.nodes@[base + entries.len() + k]).planted(exits[k].position)
        &&& lists(s6.nodes@[base + entries.len() + k].outgoing@, exits[k].segment.id as int)
    } by {
        let m = base + entries.len() + k;
        assert(s2.nodes@[m].planted(exits[k].position));
        assert(s2.nodes@[m].outgoing@[0] == exits[k].segment);
        assert(lists(s2.nodes@[m].outgoing@, exits[k].segment.id as int));
        assert(s3.nodes@[m] == s2.nodes@[m]);
        assert(s4.nodes@[m].same_point(&s3.nodes@[m]));
        assert(s6.nodes@[m].same_as(&s5.nodes@[m]));
    }
    assert forall|s: int| 0 <= s < first implies {
        &&& (#[trigger] s6.segments@[s]).same_path(&s0.segments@[s])
        &&& if approached(entries, s) {
            s6.segments@[s].to.id == base + last_named(entries, s, entries.len() as int)
        } else {
            s6.segments@[s].to == s0.segments@[s].to
        }
        &&& if approached(exits, s) {
            s6.segments@[s].from.id == base + entries.len() + last_named(
                exits,
                s,
                exits.len() as int,
            )
        } else {
            s6.segments@[s].from == s0.segments@[s].from
        }
    } by {
        assert(s6.segments@[s] == s2.segments@[s]);
        assert(s2.segments@[s].same_path(&s0.segments@[s]));
    }
    assert forall|s: int| first <= s < s6.segments@.len() implies (
    #[trigger] s6.segments@[s]).from.id >= base && s6.segments@[s].to.id >= base && s6.fits(
        s6.segments@[s],
    ) by {
        let segment = laid[s - first].0;
        assert(s6.segments@[s] == segment);
        assert(s3.fits(segment));
        let f = segment.from.id as int;
        let t = segment.to.id as int;
        assert(s4.nodes@[f].same_point(&s3.nodes@[f]));
        assert(s4.nodes@[t].same_point(&s3.nodes@[t]));
        assert(s6.nodes@[f].same_as(&s5.nodes@[f]));
        assert(s6.nodes@[t].same_as(&s5.nodes@[t]));
    }
    assert(s6.ring_wired(s0, junction, laid)) by {
        let inner = x.incoming@;
        assert forall|m: int| base <= m < s6.nodes@.len() implies {
            &&& (#[trigger] s6.nodes@[m]).incoming@ == (if m < base + entries.len() {
                seq![entries[m - base].segment]
            } else {
                Seq::empty()
            }) + arriving(laid, inner, m, laid.len() as int)
            &&& s6.nodes@[m].outgoing@ == (if base + entries.len() <= m < base + entries.len()
                + exits.len() {
                seq![exits[m - base - entries.len()].segment]
            } else {
                Seq::empty()
            }) + departing(laid, inner, m, laid.len() as int)
        } by {
            assert(s6.nodes@[m].same_as(&s5.nodes@[m]));
            assert(s4.nodes@[m].incoming@ == s3.nodes@[m].incoming@ + arriving(
                laid,
                inner,
                m,
                laid.len() as int,
            ));
            assert(s4.nodes@[m].outgoing@ == s3.nodes@[m].outgoing@ + departing(
                laid,
                inner,
                m,
                laid.len() as int,
            ));
            if m < base + entries.len() {
                assert(s2.nodes@[base + (m - base)].incoming@ == seq![entries[m - base].segment]);
                assert(s3.nodes@[m] == s2.nodes@[m]);
                assert(s3.nodes@[m].outgoing@ =~= Seq::empty());
            } else if m < base + entries.len() + exits.len() {
                let k = m - base - entries.len();
                assert(s2.nodes@[base + entries.len() + k].outgoing@ == seq![exits[k].segment]);
                assert(s3.nodes@[m] == s2.nodes@[m]);
                assert(s3.nodes@[m].incoming@ =~= Seq::empty());
            } else {
                let k = m - s2.nodes@.len();
                assert(s3.nodes@[s2.nodes@.len() + k].incoming@.len() == 0);
                assert(s3.nodes@[m].incoming@ =~= Seq::empty());
                assert(s3.nodes@[m].outgoing@ =~= Seq::empty());
            }
        }
    }
    assert forall|k: int| 0 <= k < x.edge_nodes@.len() implies (#[trigger] x.edge_nodes@[k]).id
        == base + k by {
        if k < entry_ring.len() {
            assert(x.edge_nodes@[k] == entry_ring[k]);
        } else {
            assert(x.edge_nodes@[k] == exit_ring[k - entry_ring.len()]);
        }
    }
    assert(x.edge_nodes@.take(entries.len() as int) =~= entry_ring);
    assert(x.edge_nodes@.skip(entries.len() as int) =~= exit_ring);
    assert(s6.inner_paths(first) =~= laid.map_values(|p: (Segment, Vec3)| p.0));
    match junction.resolver {
        YieldResolver::RightOfWay => {
            assert(s6.crossed(s0, junction));
        },
        YieldResolver::Roundabout => {
            let rim = base + entries.len() + exits.len();
            s6.nodes.lemma_len();
            assert forall|k: int| 0 <= k < entries.len() implies (#[trigger] s6.nodes@[rim
                + k]).planted(
                circle_position_spec(junction.position, sorted_entries[k].0.angle),
            ) by {
                assert(s3.nodes@[s2.nodes@.len() + k].planted(
                    circle_position_spec(junction.position, sorted_entries[k].0.angle),
                ));
                assert(s4.nodes@[rim + k].same_point(&s3.nodes@[rim + k]));
                assert(s6.nodes@[rim + k].same_as(&s5.nodes@[rim + k]));
            }
            assert(circle =~= Seq::new(
                entries.len(),
                |k: int| Id::<Node>::of((rim + k) as usize),
            )) by {
                assert forall|k: int| 0 <= k < circle.len() implies circle[k] == Id::<Node>::of(
                    (rim + k) as usize,
                ) by {
                    assert(circle[k].id == rim + k);
                }
            }
            assert(s6.circled(s0, junction));
        },
    }
}

impl Road {
    /// Whether no junction lists segment `s`.
    pub open spec fn clear_of_junctions(&self, s: int) -> bool {
        forall|n: int|
            0 <= n < self.nodes@.len() && #[trigger] self.is_junction(n) ==> !lists(
                self.nodes@[n].incoming@,
                s,
            ) && !lists(self.nodes@[n].outgoing@, s)
    }

    /// Whether intersection `i` is the fresh record of node `n` of `before`:
    /// at the place of the node, under its rule, with a rim of one node for
    /// each segment the node listed, and nobody waiting.
    pub open spec fn records_junction(&self, i: int, before: &Road, n: int) -> bool {
        let x = self.intersections@[i];
        &&& x.position == before.nodes@[n].position
        &&& x.yield_resolver == resolver_spec(before.nodes@[n].yield_resolver)
        &&& x.arrival_counter == 0
        &&& x.incoming@ == x.outgoing@
        &&& x.entry_directions@.len() == x.incoming@.len()
        &&& x.edge_nodes@.len() == before.nodes@[n].incoming@.len()
            + before.nodes@[n].outgoing@.len()
        &&& forall|e: int|
            0 <= e < x.edge_nodes@.len() ==> (#[trigger] x.edge_nodes@[e]).id
                >= before.nodes@.len()
    }

    /// The state after the first `k` junctions of `before` were expanded.
    pub open spec fn expanded_upto(&self, before: &Road, k: int) -> bool {
        let junctions = before.junctions();
        let base = before.nodes@.len() as int;
        let first = before.segments@.len() as int;
        let records = before.intersections@.len() as int;
        &&& self.nodes@.len() >= base
        &&& self.segments@.len() >= first
        &&& self.intersections@.len() == records + k
        &&& forall|i: int|
            0 <= i < records ==> self.intersections@[i] == before.intersections@[i]
        &&& forall|j: int|
            0 <= j < k ==> {
                &&& #[trigger] self.records_junction(records + j, before, junctions[j])
                &&& self.intersections@[records + j].conflicts@.len() == 0
            }
        &&& forall|m: int|
            0 <= m < base ==> if junctions.take(k).contains(m) {
                &&& (#[trigger] self.nodes@[m]).same_point(&before.nodes@[m])
                &&& self.nodes@[m].incoming@.len() == 0
                &&& self.nodes@[m].outgoing@.len() == 0
            } else {
                self.nodes@[m].same_as(&before.nodes@[m])
            }
        &&& forall|s: int|
            0 <= s < first ==> {
                &&& (#[trigger] self.segments@[s]).same_path(&before.segments@[s])
                &&& before.clear_of_junctions(s) ==> self.segments@[s].from
                    == before.segments@[s].from && self.segments@[s].to == before.segments@[s].to
            }
        &&& forall|s: int|
            first <= s < self.segments@.len() ==> (#[trigger] self.segments@[s]).from.id >= base
                && self.segments@[s].to.id >= base && self.fits(self.segments@[s])
    }

    /// A junction recorded before the expansion began still matches its node
    /// when its turn comes.
    proof fn lemma_still_matches(&self, before: &Road, junction: JunctionView, k: int)
        requires
            before.wf(),
            0 <= k < before.junctions().len(),
            self.expanded_upto(before, k),
            junction == before.junction_spec(before.junctions()[k]),
        ensures
            junction.matches_node(self, junction.node),
    {
        before.lemma_junctions(before.nodes@.len() as int);
        let junctions = before.junctions();
        let n = junctions[k];
        let done = junctions.take(k);
        if done.contains(n) {
            let j = choose|j: int| 0 <= j < done.len() && done[j] == n;
            assert(junctions[j] == n);
        }
        assert(self.nodes@[n].same_as(&before.nodes@[n]));
    }

    /// One more junction expanded keeps what was expanded before.
    #[verifier::rlimit(40)]
    proof fn lemma_expand_step(&self, mid: &Road, before: &Road, junction: JunctionView, k: int)
        requires
            before.wf(),
            0 <= k < before.junctions().len(),
            mid.expanded_upto(before, k),
            junction == before.junction_spec(before.junctions()[k]),
            self.expanded(mid, junction),
        ensures
            self.expanded_upto(before, k + 1),
    {
        before.lemma_junctions(before.nodes@.len() as int);
        let junctions = before.junctions();
        let base = before.nodes@.len() as int;
        let first = before.segments@.len() as int;
        let records = before.intersections@.len() as int;
        let n = junctions[k];
        assert(!junctions.take(k).contains(n)) by {
            let done = junctions.take(k);
            if done.contains(n) {
                let j = choose|j: int| 0 <= j < done.len() && done[j] == n;
                assert(junctions[j] == n);
            }
        }
        assert(mid.nodes@[n].same_as(&before.nodes@[n]));
        assert forall|j: int| 0 <= j < k + 1 implies {
            &&& #[trigger] self.records_junction(records + j, before, junctions[j])
            &&& self.intersections@[records + j].conflicts@.len() == 0
        } by {
            if j < k {
                assert(mid.records_junction(records + j, before, junctions[j]));
                assert(self.intersections@[records + j] == mid.intersections@[records + j]);
            } else {
                let x = self.intersections@[records + k];
                assert(x == self.intersections@.last());
                assert forall|e: int| 0 <= e < x.edge_nodes@.len() implies (
                #[trigger] x.edge_nodes@[e]).id >= base by {}
            }
        }
        assert forall|m: int| 0 <= m < base implies if junctions.take(k + 1).contains(m) {
            &&& (#[trigger] self.nodes@[m]).same_point(&before.nodes@[m])
            &&& self.nodes@[m].incoming@.len() == 0
            &&& self.nodes@[m].outgoing@.len() == 0
        } else {
            self.nodes@[m].same_as(&before.nodes@[m])
        } by {
            let done = junctions.take(k);
            let more = junctions.take(k + 1);
            if m == n {
                assert(more[k] == n);
            } else {
                assert(self.nodes@[m].same_as(&mid.nodes@[m]));
                if more.contains(m) {
                    let j = choose|j: int| 0 <= j < more.len() && more[j] == m;
                    assert(done[j] == m);
                } else if done.contains(m) {
                    let j = choose|j: int| 0 <= j < done.len() && done[j] == m;
                    assert(more[j] == m);
                }
            }
        }
        assert forall|s: int| first <= s < self.segments@.len() implies (
        #[trigger] self.segments@[s]).from.id >= base && self.segments@[s].to.id >= base
            && self.fits(self.segments@[s]) by {
            if s < mid.segments@.len() {
                assert(mid.fits(mid.segments@[s]));
                assert(self.segments@[s].same_path(&mid.segments@[s]));
                assert(before.nodes@[n].wf(first));
                if approached(junction.entries, s) {
                    let e = choose|e: int|
                        0 <= e < junction.entries.len() && (
                        #[trigger] junction.entries[e]).segment.id == s;
                    assert(before.nodes@[n].incoming@[e].id < first);
                }
                if approached(junction.exits, s) {
                    let e = choose|e: int|
                        0 <= e < junction.exits.len() && (
                        #[trigger] junction.exits[e]).segment.id == s;
                    assert(before.nodes@[n].outgoing@[e].id < first);
                }
                let f = mid.segments@[s].from.id as int;
                let t = mid.segments@[s].to.id as int;
                assert(self.nodes@[f].same_as(&mid.nodes@[f]));
                assert(self.nodes@[t].same_as(&mid.nodes@[t]));
            }
        }
        assert forall|s: int| 0 <= s < first implies {
            &&& (#[trigger] self.segments@[s]).same_path(&before.segments@[s])
            &&& before.clear_of_junctions(s) ==> self.segments@[s].from == before.segments@[s].from
                && self.segments@[s].to == before.segments@[s].to
        } by {
            assert(mid.segments@[s].same_path(&before.segments@[s]));
            assert(self.segments@[s].same_path(&mid.segments@[s]));
            if before.clear_of_junctions(s) {
                assert(before.is_junction(n));
                if approached(junction.entries, s) {
                    let e = choose|e: int|
                        0 <= e < junction.entries.len() && (
                        #[trigger] junction.entries[e]).segment.id == s;
                    assert(before.nodes@[n].incoming@[e].id == s);
                }
                if approached(junction.exits, s) {
                    let e = choose|e: int|
                        0 <= e < junction.exits.len() && (
                        #[trigger] junction.exits[e]).segment.id == s;
                    assert(before.nodes@[n].outgoing@[e].id == s);
                }
            }
        }
    }

    /// Whether `states` are the states of the network through the
    /// expansion of the first `k` junctions of `before`, one after the other
    /// in ascending order of the nodes, each as it was recorded before the
    /// first of them was expanded; the last of the states is this one.
    pub open spec fn expanded_through(&self, before: &Road, states: Seq<Road>, k: int) -> bool {
        &&& states.len() == k + 1
        &&& states[0] == *before
        &&& states[k] == *self
        &&& forall|j: int|
            0 <= j < k ==> (#[trigger] states[j + 1]).expanded(
                &states[j],
                before.junction_spec(before.junctions()[j]),
            )
    }

    /// Expands every junction of the network, in ascending order of the
    /// nodes.
    pub fn expand_junctions(&mut self)
        requires
            old(self).wf(),
        ensures
            final(self).wf(),
            final(self).expanded_upto(old(self), old(self).junctions().len() as int),
            exists|states: Seq<Road>| #[trigger]
                final(self).expanded_through(
                    old(self),
                    states,
                    old(self).junctions().len() as int,
                ),
    {
        let junctions = self.collect_junctions();
        let mut k: usize = 0;
        let ghost mut states: Seq<Road> = seq![*self];
        proof {
            assert(old(self).junctions().take(0) =~= Seq::<int>::empty());
            assert forall|m: int| 0 <= m < self.nodes@.len() implies !old(self).junctions().take(
                0,
            ).contains(m) by {}
        }
        while k < junctions.len()
            invariant
                old(self).wf(),
                self.wf(),
                k <= junctions@.len(),
                junctions@.len() == old(self).junctions().len(),
                forall|j: int|
                    0 <= j < junctions@.len() ==> old(self).records(
                        #[trigger] &junctions@[j],
                        old(self).junctions()[j],
                    ),
                self.expanded_upto(old(self), k as int),
                self.expanded_through(old(self), states, k as int),
            decreases junctions@.len() - k,
        {
            let ghost mid = *self;
            let ghost earlier = states;
            proof {
                self.lemma_still_matches(old(self), junctions@[k as int]@, k as int);
            }
            self.expand(&junctions[k]);
            proof {
                self.lemma_expand_step(&mid, old(self), junctions@[k as int]@, k as int);
                states = states.push(*self);
                assert forall|j: int| 0 <= j < k + 1 implies (#[trigger] states[j + 1]).expanded(
                    &states[j],
                    old(self).junction_spec(old(self).junctions()[j]),
                ) by {
                    if j < k {
                        assert(earlier[j + 1].expanded(
                            &earlier[j],
                            old(self).junction_spec(old(self).junctions()[j]),
                        ));
                        assert(states[j + 1] == earlier[j + 1]);
                        assert(states[j] == earlier[j]);
                    } else {
                        assert(states[k as int] == mid);
                    }
                }
            }
            k += 1;
        }
    }
}

impl Road {
    /// What `finalize` makes of the network `before`.
    ///
    /// No node that was there has moved, and every junction among them has
    /// lost its segments to the nodes on its rim. No segment that was there
    /// has changed its speed limit, its shape or its turn. Every straight
    /// segment and every path inside an intersection is as long as its shape
    /// and its ends give, and a straight segment that no junction listed
    /// runs in its lane. For every junction there is a record, in the
    /// order of the nodes, after the records that were there. The table of
    /// every record holds, after what it held, the pairs of its paths that
    /// cross.
    pub open spec fn finalized(&self, before: &Road) -> bool {
        let junctions = before.junctions();
        let base = before.nodes@.len() as int;
        let first = before.segments@.len() as int;
        let records = before.intersections@.len() as int;
        &&& self.nodes@.len() >= base
        &&& self.segments@.len() >= first
        &&& self.intersections@.len() == records + junctions.len()
        &&& forall|m: int|
            0 <= m < base ==> {
                &&& (#[trigger] self.nodes@[m]).position == before.nodes@[m].position
                &&& self.nodes@[m].yield_resolver == before.nodes@[m].yield_resolver
                &&& before.is_junction(m) ==> self.nodes@[m].incoming@.len() == 0
                    && self.nodes@[m].outgoing@.len() == 0
            }
        &&& forall|s: int|
            0 <= s < first ==> {
                &&& (#[trigger] self.segments@[s]).speed_limit == before.segments@[s].speed_limit
                &&& self.segments@[s].geometry == before.segments@[s].geometry
                &&& self.segments@[s].turn_type == before.segments@[s].turn_type
                &&& before.is_straight(s) && before.clear_of_junctions(s) ==> self.in_lane(
                    s,
                    before.lane_shift_spec(s),
                    before.segments@[s],
                    base,
                )
            }
        &&& forall|s: int|
            0 <= s < self.segments@.len() && (#[trigger] self.is_straight(s) || s >= first)
                ==> self.segments@[s].length == self.measured(s)
        &&& forall|i: int|
            0 <= i < records ==> (#[trigger] self.intersections@[i]).same_but_conflicts(
                &before.intersections@[i],
            )
        &&& forall|j: int|
            0 <= j < junctions.len() ==> #[trigger] self.records_junction(
                records + j,
                before,
                junctions[j],
            )
        &&& forall|i: int|
            0 <= i < self.intersections@.len() ==> (
            #[trigger] self.intersections@[i]).conflicts@ == (if i < records {
                before.intersections@[i].conflicts@
            } else {
                Seq::empty()
            }) + self.conflict_rows_spec(
                self.intersections@[i].yield_resolver,
                self.intersections@[i].incoming@,
                self.intersections@[i].incoming@.len() as int,
            )
    }

    /// Whether this is the network `before` after the three passes: every
    /// junction expanded, through `states`; then every straight segment moved
    /// into its lane, which gives `offset`; then the crossing paths of every
    /// intersection recorded.
    pub open spec fn passed(&self, before: &Road, states: Seq<Road>, offset: &Road) -> bool {
        &&& states.last().expanded_through(before, states, before.junctions().len() as int)
        &&& offset.lanes_offset(&states.last())
        &&& self.conflicts_recorded(offset)
    }

    /// Makes the network ready for driving: expands every junction, moves
    /// the straight segments into their lanes, and records the paths that
    /// cross inside every intersection.
    pub fn finalize(&mut self)
        requires
            old(self).wf(),
        ensures
            final(self).wf(),
            final(self).finalized(old(self)),
            exists|states: Seq<Road>, offset: Road| #[trigger]
                final(self).passed(old(self), states, &offset),
    {
        self.expand_junctions();
        let ghost expanded = *self;
        let ghost states = choose|states: Seq<Road>| #[trigger]
            expanded.expanded_through(old(self), states, old(self).junctions().len() as int);
        self.offset_lanes();
        let ghost offset = *self;
        self.record_conflicts();
        proof {
            lemma_finalized(old(self), &expanded, &offset, self);
            assert(states.last() == expanded);
            assert(self.passed(old(self), states, &offset));
        }
    }
}

/// A node that was there before the junctions were expanded stands on a rim
/// afterwards exactly if it stood on one before.
proof fn lemma_rim_kept(before: &Road, expanded: &Road, m: int)
    requires
        expanded.expanded_upto(before, before.junctions().len() as int),
        0 <= m < before.nodes@.len(),
    ensures
        expanded.on_rim(m) == before.on_rim(m),
{
    let records = before.intersections@.len() as int;
    if before.on_rim(m) {
        let (i, k) = choose|i: int, k: int|
            0 <= i < before.intersections@.len() && 0 <= k
                < before.intersections@[i].edge_nodes@.len()
                && (#[trigger] before.intersections@[i].edge_nodes@[k]).id == m;
        assert(expanded.intersections@[i].edge_nodes@[k].id == m);
    }
    if expanded.on_rim(m) {
        let (i, k) = choose|i: int, k: int|
            0 <= i < expanded.intersections@.len() && 0 <= k
                < expanded.intersections@[i].edge_nodes@.len()
                && (#[trigger] expanded.intersections@[i].edge_nodes@[k]).id == m;
        if i >= records {
            assert(expanded.records_junction(records + (i - records), before, before.junctions()[i - records]));
        } else {
            assert(before.intersections@[i].edge_nodes@[k].id == m);
        }
    }
}

#[verifier::rlimit(40)]
proof fn lemma_finalized(before: &Road, expanded: &Road, offset: &Road, done: &Road)
    requires
        before.wf(),
        expanded.wf(),
        expanded.expanded_upto(before, before.junctions().len() as int),
        offset.lanes_offset(expanded),
        done.conflicts_recorded(offset),
    ensures
        done.finalized(before),
{
    before.lemma_junctions(before.nodes@.len() as int);
    let junctions = before.junctions();
    let count = junctions.len() as int;
    let base = before.nodes@.len() as int;
    let first = before.segments@.len() as int;
    let records = before.intersections@.len() as int;
    assert(junctions.take(count) =~= junctions);
    assert forall|m: int| 0 <= m < base implies {
        &&& (#[trigger] done.nodes@[m]).position == before.nodes@[m].position
        &&& done.nodes@[m].yield_resolver == before.nodes@[m].yield_resolver
        &&& before.is_junction(m) ==> done.nodes@[m].incoming@.len() == 0
            && done.nodes@[m].outgoing@.len() == 0
    } by {
        assert(offset.nodes@[m].shrunk_from(&expanded.nodes@[m]));
        assert(expanded.nodes@[m].same_point(&before.nodes@[m]));
    }
    assert forall|s: int| 0 <= s < first implies {
        &&& (#[trigger] done.segments@[s]).speed_limit == before.segments@[s].speed_limit
        &&& done.segments@[s].geometry == before.segments@[s].geometry
        &&& done.segments@[s].turn_type == before.segments@[s].turn_type
        &&& before.is_straight(s) && before.clear_of_junctions(s) ==> done.in_lane(
            s,
            before.lane_shift_spec(s),
            before.segments@[s],
            base,
        )
    } by {
        assert(expanded.segments@[s].same_path(&before.segments@[s]));
        if before.is_straight(s) && before.clear_of_junctions(s) {
            assert(before.wired(s));
            let f = before.segments@[s].from.id as int;
            let t = before.segments@[s].to.id as int;
            assert(!before.is_junction(f));
            assert(!before.is_junction(t));
            assert(!junctions.contains(f)) by {
                if junctions.contains(f) {
                    let i = choose|i: int| 0 <= i < junctions.len() && junctions[i] == f;
                }
            }
            assert(!junctions.contains(t)) by {
                if junctions.contains(t) {
                    let i = choose|i: int| 0 <= i < junctions.len() && junctions[i] == t;
                }
            }
            assert(expanded.nodes@[f].same_as(&before.nodes@[f]));
            assert(expanded.nodes@[t].same_as(&before.nodes@[t]));
            lemma_rim_kept(before, expanded, f);
            lemma_rim_kept(before, expanded, t);
            before.segments.lemma_len();
            assert(expanded.lane_shift_spec(s) == before.lane_shift_spec(s));
            assert(offset.in_lane(
                s,
                expanded.lane_shift_spec(s),
                expanded.segments@[s],
                expanded.nodes@.len() as int,
            ));
        }
    }
    assert forall|s: int|
        0 <= s < done.segments@.len() && (#[trigger] done.is_straight(s) || s
            >= first) implies done.segments@[s].length == done.measured(s) by {
        if expanded.segments@[s].geometry is Straight {
            assert(offset.in_lane(
                s,
                expanded.lane_shift_spec(s),
                expanded.segments@[s],
                expanded.nodes@.len() as int,
            ));
        } else {
            assert(offset.segments@[s] == expanded.segments@[s]);
            assert(expanded.fits(expanded.segments@[s]));
            let f = expanded.segments@[s].from.id as int;
            let t = expanded.segments@[s].to.id as int;
            assert(offset.nodes@[f].shrunk_from(&expanded.nodes@[f]));
            assert(offset.nodes@[t].shrunk_from(&expanded.nodes@[t]));
        }
    }
    assert forall|j: int| 0 <= j < junctions.len() implies #[trigger] done.records_junction(
        records + j,
        before,
        junctions[j],
    ) by {
        assert(expanded.records_junction(records + j, before, junctions[j]));
        assert(done.intersections@[records + j].same_but_conflicts(
            &offset.intersections@[records + j],
        ));
    }
    assert forall|i: int| 0 <= i < done.intersections@.len() implies (
    #[trigger] done.intersections@[i]).conflicts@ == (if i < records {
        before.intersections@[i].conflicts@
    } else {
        Seq::empty()
    }) + done.conflict_rows_spec(
        done.intersections@[i].yield_resolver,
        done.intersections@[i].incoming@,
        done.intersections@[i].incoming@.len() as int,
    ) by {
        let x = offset.intersections@[i];
        lemma_same_rows(offset, done, x.yield_resolver, x.incoming@, x.incoming@.len() as int);
        assert(done.intersections@[i].same_but_conflicts(&x));
        if i >= records {
            assert(expanded.records_junction(records + (i - records), before, junctions[i - records]));
            assert(x.conflicts@ =~= Seq::empty());
        }
    }
    assert forall|i: int| 0 <= i < records implies (
    #[trigger] done.intersections@[i]).same_but_conflicts(&before.intersections@[i]) by {
        assert(done.intersections@[i].same_but_conflicts(&offset.intersections@[i]));
    }
}

} // verus!

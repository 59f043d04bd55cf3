//! The expansion of one junction into a ring of nodes on its rim and the
//! segments that lead across it.

use crate::arena::Id;
use crate::driver::yielding::TurnType;
use crate::junction::Approach;
use crate::road::{lemma_lists_push, lists, Node, Road, Segment};
use crate::roundabout::{
    circle_arc, circle_arc_spec, circle_heading, circle_heading_spec, circle_position,
    circle_position_spec, ramp, ramp_spec, Arm,
};
use crate::turns::{turn_between, turn_row_spec, turn_rows_spec, turn_segment_spec, TURN_SPEED};
use crate::vector::Vec3;
use vstd::prelude::*;

verus! {

/// Whether one of `approaches` is the segment with index `s`.
pub open spec fn approached(approaches: Seq<Approach>, s: int) -> bool {
    exists|k: int| 0 <= k < approaches.len() && (#[trigger] approaches[k]).segment.id == s
}

/// The last position before `k` at which `approaches` names segment `s`;
/// `-1` where it does not name it.
pub open spec fn last_named(approaches: Seq<Approach>, s: int, k: int) -> int
    decreases k,
{
    if k <= 0 {
        -1
    } else if approaches[k - 1].segment.id == s {
        k - 1
    } else {
        last_named(approaches, s, k - 1)
    }
}

/// A segment has a last position among the approaches exactly if one of
/// them is that segment.
pub proof fn lemma_last_named(approaches: Seq<Approach>, s: int, k: int)
    requires
        0 <= k <= approaches.len(),
    ensures
        -1 <= last_named(approaches, s, k) < k,
        last_named(approaches, s, k) >= 0 <==> approached(approaches.take(k), s),
        last_named(approaches, s, k) >= 0 ==> approaches[last_named(approaches, s, k)].segment.id
            == s,
    decreases k,
{
    if k > 0 {
        lemma_last_named(approaches, s, k - 1);
        let now = approaches.take(k);
        let before = approaches.take(k - 1);
        if approaches[k - 1].segment.id == s {
            assert(now[k - 1].segment.id == s);
        } else {
            if approached(before, s) {
                let j = choose|j: int| 0 <= j < before.len() && (#[trigger] before[j]).segment.id == s;
                assert(now[j].segment.id == s);
            }
            if approached(now, s) {
                let j = choose|j: int| 0 <= j < now.len() && (#[trigger] now[j]).segment.id == s;
                assert(before[j].segment.id == s);
            }
        }
    } else {
        assert(approaches.take(0).len() == 0);
    }
}

/// Whether every segment of `approaches` has an index below `bound`.
pub open spec fn approaches_below(approaches: Seq<Approach>, bound: int) -> bool {
    forall|k: int| 0 <= k < approaches.len() ==> (#[trigger] approaches[k]).segment.id < bound
}

/// The indices, in `inner`, of those of the first `k` segments of `laid`
/// that start from node `n`, in their order.
pub open spec fn departing(laid: Seq<(Segment, Vec3)>, inner: Seq<Id<Segment>>, n: int, k: int) -> Seq<
    Id<Segment>,
>
    decreases k,
{
    if k <= 0 {
        Seq::empty()
    } else if laid[k - 1].0.from.id == n {
        departing(laid, inner, n, k - 1).push(inner[k - 1])
    } else {
        departing(laid, inner, n, k - 1)
    }
}

/// The indices, in `inner`, of those of the first `k` segments of `laid`
/// that end at node `n`, in their order.
pub open spec fn arriving(laid: Seq<(Segment, Vec3)>, inner: Seq<Id<Segment>>, n: int, k: int) -> Seq<
    Id<Segment>,
>
    decreases k,
{
    if k <= 0 {
        Seq::empty()
    } else if laid[k - 1].0.to.id == n {
        arriving(laid, inner, n, k - 1).push(inner[k - 1])
    } else {
        arriving(laid, inner, n, k - 1)
    }
}

/// What starts from and ends at a node among the first `k` segments does
/// not depend on the segments after them.
pub proof fn lemma_attached_prefix(
    laid: Seq<(Segment, Vec3)>,
    inner: Seq<Id<Segment>>,
    more: Seq<(Segment, Vec3)>,
    more_inner: Seq<Id<Segment>>,
    n: int,
    k: int,
)
    requires
        0 <= k <= laid.len(),
        laid.len() <= more.len(),
        inner.len() == laid.len(),
        more_inner.len() == more.len(),
        forall|j: int| 0 <= j < k ==> laid[j] == more[j] && inner[j] == more_inner[j],
    ensures
        departing(laid, inner, n, k) == departing(more, more_inner, n, k),
        arriving(laid, inner, n, k) == arriving(more, more_inner, n, k),
    decreases k,
{
    if k > 0 {
        lemma_attached_prefix(laid, inner, more, more_inner, n, k - 1);
    }
}

impl Segment {
    /// Equal but for the two ends.
    pub open spec fn same_path(&self, o: &Segment) -> bool {
        &&& self.speed_limit == o.speed_limit
        &&& self.geometry == o.geometry
        &&& self.turn_type == o.turn_type
        &&& self.length == o.length
    }
}

impl Node {
    /// A node on a rim, as it stands when it was planted for one road.
    pub open spec fn planted(&self, position: crate::vector::Vec3) -> bool {
        &&& self.position == position
        &&& !self.is_spawn
        &&& !self.is_despawn
        &&& self.yield_resolver is None
    }
}

impl Road {
    /// The state after a node was planted for each of `approaches`, with the
    /// old nodes, the intersections and the number of segments as before.
    pub open spec fn planted(&self, before: &Road, approaches: Seq<Approach>, ring: Seq<Id<Node>>) -> bool {
        let base = before.nodes@.len() as int;
        &&& self.intersections@ == before.intersections@
        &&& self.segments@.len() == before.segments@.len()
        &&& self.nodes@.len() == base + approaches.len()
        &&& ring.len() == approaches.len()
        &&& forall|k: int| 0 <= k < ring.len() ==> (#[trigger] ring[k]).id == base + k
        &&& forall|n: int|
            0 <= n < base ==> (#[trigger] self.nodes@[n]).same_as(&before.nodes@[n])
        &&& forall|k: int|
            0 <= k < approaches.len() ==> (#[trigger] self.nodes@[base + k]).planted(
                approaches[k].position,
            )
    }

    /// Plants a node on the rim for each arriving road and lets the road end
    /// there.
    #[verifier::rlimit(40)]
    pub fn plant_entries(&mut self, entries: &Vec<Approach>) -> (r: Vec<Id<Node>>)
        requires
            old(self).wf(),
            approaches_below(entries@, old(self).segments@.len() as int),
        ensures
            final(self).wf(),
            final(self).planted(old(self), entries@, r@),
            forall|k: int|
                0 <= k < entries@.len() ==> {
                    &&& (#[trigger] final(self).nodes@[old(self).nodes@.len() + k]).incoming@
                        == seq![entries@[k].segment]
                    &&& final(self).nodes@[old(self).nodes@.len() + k].outgoing@.len() == 0
                },
            forall|s: int|
                0 <= s < final(self).segments@.len() ==> {
                    &&& (#[trigger] final(self).segments@[s]).same_path(&old(self).segments@[s])
                    &&& final(self).segments@[s].from == old(self).segments@[s].from
                    &&& if approached(entries@, s) {
                        final(self).segments@[s].to.id == old(self).nodes@.len() + last_named(
                            entries@,
                            s,
                            entries@.len() as int,
                        )
                    } else {
                        final(self).segments@[s].to == old(self).segments@[s].to
                    }
                },
    {
        let ghost base = self.nodes@.len() as int;
        let mut ring: Vec<Id<Node>> = Vec::new();
        let mut i: usize = 0;
        while i < entries.len()
            invariant
                self.wf(),
                base == old(self).nodes@.len(),
                approaches_below(entries@, old(self).segments@.len() as int),
                i <= entries@.len(),
                self.planted(old(self), entries@.take(i as int), ring@),
                forall|k: int|
                    0 <= k < i ==> {
                        &&& (#[trigger] self.nodes@[base + k]).incoming@ == seq![
                            entries@[k].segment,
                        ]
                        &&& self.nodes@[base + k].outgoing@.len() == 0
                    },
                forall|s: int|
                    0 <= s < self.segments@.len() ==> {
                        &&& (#[trigger] self.segments@[s]).same_path(&old(self).segments@[s])
                        &&& self.segments@[s].from == old(self).segments@[s].from
                        &&& if approached(entries@.take(i as int), s) {
                            self.segments@[s].to.id == base + last_named(entries@, s, i as int)
                        } else {
                            self.segments@[s].to == old(self).segments@[s].to
                        }
                    },
            decreases entries@.len() - i,
        {
            let ghost before = *self;
            let ghost ring_before = ring@;
            let approach = entries[i];
            let node = self.add_node(approach.position);
            ring.push(node);
            let ghost mid = *self;
            self.retarget(approach.segment, node);
            proof {
                let done = entries@.take(i as int);
                let next = entries@.take(i + 1);
                assert(next.len() == i + 1);
                assert forall|k: int| 0 <= k < next.len() implies (
                #[trigger] self.nodes@[base + k]).planted(next[k].position) by {
                    if k < i {
                        assert(before.nodes@[base + k].planted(done[k].position));
                        assert(mid.nodes@[base + k] == before.nodes@[base + k]);
                    }
                }
                assert forall|n: int| 0 <= n < base implies (#[trigger] self.nodes@[n]).same_as(
                    &old(self).nodes@[n],
                ) by {
                    assert(before.nodes@[n].same_as(&old(self).nodes@[n]));
                    assert(mid.nodes@[n] == before.nodes@[n]);
                }
                assert forall|k: int| 0 <= k < i + 1 implies {
                    &&& (#[trigger] self.nodes@[base + k]).incoming@ == seq![entries@[k].segment]
                    &&& self.nodes@[base + k].outgoing@.len() == 0
                } by {
                    if k < i {
                        assert(mid.nodes@[base + k] == before.nodes@[base + k]);
                    } else {
                        assert(self.nodes@[base + k].incoming@ =~= seq![entries@[k].segment]);
                    }
                }
                assert forall|s: int| 0 <= s < self.segments@.len() implies {
                    &&& (#[trigger] self.segments@[s]).same_path(&old(self).segments@[s])
                    &&& self.segments@[s].from == old(self).segments@[s].from
                    &&& if approached(next, s) {
                        self.segments@[s].to.id == base + last_named(entries@, s, i + 1)
                    } else {
                        self.segments@[s].to == old(self).segments@[s].to
                    }
                } by {
                    assert(before.segments@[s].same_path(&old(self).segments@[s]));
                    lemma_last_named(entries@, s, i as int);
                    lemma_last_named(entries@, s, i + 1);
                    if approached(done, s) {
                        let k = choose|k: int|
                            0 <= k < done.len() && (#[trigger] done[k]).segment.id == s;
                        assert(next[k].segment.id == s);
                    }
                    if s == approach.segment.id {
                        assert(next[i as int].segment.id == s);
                    }
                    if approached(next, s) && s != approach.segment.id {
                        let k = choose|k: int|
                            0 <= k < next.len() && (#[trigger] next[k]).segment.id == s;
                        assert(done[k].segment.id == s);
                    }
                }
            }
            i += 1;
        }
        proof {
            assert(entries@.take(entries@.len() as int) =~= entries@);
        }
        ring
    }

    /// Plants a node on the rim for each leaving road and lets the road start
    /// there.
    #[verifier::rlimit(40)]
    pub fn plant_exits(&mut self, exits: &Vec<Approach>) -> (r: Vec<Id<Node>>)
        requires
            old(self).wf(),
            approaches_below(exits@, old(self).segments@.len() as int),
        ensures
            final(self).wf(),
            final(self).planted(old(self), exits@, r@),
            forall|k: int|
                0 <= k < exits@.len() ==> {
                    &&& (#[trigger] final(self).nodes@[old(self).nodes@.len() + k]).outgoing@
                        == seq![exits@[k].segment]
                    &&& final(self).nodes@[old(self).nodes@.len() + k].incoming@.len() == 0
                },
            forall|s: int|
                0 <= s < final(self).segments@.len() ==> {
                    &&& (#[trigger] final(self).segments@[s]).same_path(&old(self).segments@[s])
                    &&& final(self).segments@[s].to == old(self).segments@[s].to
                    &&& if approached(exits@, s) {
                        final(self).segments@[s].from.id == old(self).nodes@.len() + last_named(
                            exits@,
                            s,
                            exits@.len() as int,
                        )
                    } else {
                        final(self).segments@[s].from == old(self).segments@[s].from
                    }
                },
    {
        let ghost base = self.nodes@.len() as int;
        let mut ring: Vec<Id<Node>> = Vec::new();
        let mut i: usize = 0;
        while i < exits.len()
            invariant
                self.wf(),
                base == old(self).nodes@.len(),
                approaches_below(exits@, old(self).segments@.len() as int),
                i <= exits@.len(),
                self.planted(old(self), exits@.take(i as int), ring@),
                forall|k: int|
                    0 <= k < i ==> {
                        &&& (#[trigger] self.nodes@[base + k]).outgoing@ == seq![
                            exits@[k].segment,
                        ]
                        &&& self.nodes@[base + k].incoming@.len() == 0
                    },
                forall|s: int|
                    0 <= s < self.segments@.len() ==> {
                        &&& (#[trigger] self.segments@[s]).same_path(&old(self).segments@[s])
                        &&& self.segments@[s].to == old(self).segments@[s].to
                        &&& if approached(exits@.take(i as int), s) {
                            self.segments@[s].from.id == base + last_named(exits@, s, i as int)
                        } else {
                            self.segments@[s].from == old(self).segments@[s].from
                        }
                    },
            decreases exits@.len() - i,
        {
            let ghost before = *self;
            let approach = exits[i];
            let node = self.add_node(approach.position);
            ring.push(node);
            let ghost mid = *self;
            self.resource(approach.segment, node);
            proof {
                let done = exits@.take(i as int);
                let next = exits@.take(i + 1);
                assert(next.len() == i + 1);
                assert forall|k: int| 0 <= k < next.len() implies (
                #[trigger] self.nodes@[base + k]).planted(next[k].position) by {
                    if k < i {
                        assert(before.nodes@[base + k].planted(done[k].position));
                        assert(mid.nodes@[base + k] == before.nodes@[base + k]);
                    }
                }
                assert forall|n: int| 0 <= n < base implies (#[trigger] self.nodes@[n]).same_as(
                    &old(self).nodes@[n],
                ) by {
                    assert(before.nodes@[n].same_as(&old(self).nodes@[n]));
                    assert(mid.nodes@[n] == before.nodes@[n]);
                }
                assert forall|k: int| 0 <= k < i + 1 implies {
                    &&& (#[trigger] self.nodes@[base + k]).outgoing@ == seq![exits@[k].segment]
                    &&& self.nodes@[base + k].incoming@.len() == 0
                } by {
                    if k < i {
                        assert(mid.nodes@[base + k] == before.nodes@[base + k]);
                    } else {
                        assert(self.nodes@[base + k].outgoing@ =~= seq![exits@[k].segment]);
                    }
                }
                assert forall|s: int| 0 <= s < self.segments@.len() implies {
                    &&& (#[trigger] self.segments@[s]).same_path(&old(self).segments@[s])
                    &&& self.segments@[s].to == old(self).segments@[s].to
                    &&& if approached(next, s) {
                        self.segments@[s].from.id == base + last_named(exits@, s, i + 1)
                    } else {
                        self.segments@[s].from == old(self).segments@[s].from
                    }
                } by {
                    assert(before.segments@[s].same_path(&old(self).segments@[s]));
                    lemma_last_named(exits@, s, i as int);
                    lemma_last_named(exits@, s, i + 1);
                    if approached(done, s) {
                        let k = choose|k: int|
                            0 <= k < done.len() && (#[trigger] done[k]).segment.id == s;
                        assert(next[k].segment.id == s);
                    }
                    if s == approach.segment.id {
                        assert(next[i as int].segment.id == s);
                    }
                    if approached(next, s) && s != approach.segment.id {
                        let k = choose|k: int|
                            0 <= k < next.len() && (#[trigger] next[k]).segment.id == s;
                        assert(done[k].segment.id == s);
                    }
                }
            }
            i += 1;
        }
        proof {
            assert(exits@.take(exits@.len() as int) =~= exits@);
        }
        ring
    }

    /// The state after the segments of `laid` were appended and attached,
    /// under the indices `inner`, with nothing else changed: the nodes at
    /// which none of them starts or ends are as before, and the others list
    /// what they listed before.
    #[verifier::opaque]
    pub open spec fn laid(
        &self,
        before: &Road,
        laid: Seq<(Segment, Vec3)>,
        inner: Seq<Id<Segment>>,
        directions: Seq<Vec3>,
    ) -> bool {
        &&& self.intersections@ == before.intersections@
        &&& self.nodes@.len() == before.nodes@.len()
        &&& self.segments@ == before.segments@ + laid.map_values(|p: (Segment, Vec3)| p.0)
        &&& directions == laid.map_values(|p: (Segment, Vec3)| p.1)
        &&& inner.len() == laid.len()
        &&& forall|k: int|
            0 <= k < inner.len() ==> (#[trigger] inner[k]).id == before.segments@.len() + k
        &&& forall|n: int|
            0 <= n < self.nodes@.len() ==> {
                &&& (#[trigger] self.nodes@[n]).same_point(&before.nodes@[n])
                &&& forall|x: int|
                    lists(before.nodes@[n].incoming@, x) ==> lists(self.nodes@[n].incoming@, x)
                &&& forall|x: int|
                    lists(before.nodes@[n].outgoing@, x) ==> lists(self.nodes@[n].outgoing@, x)
                &&& (forall|k: int|
                    0 <= k < laid.len() ==> (#[trigger] laid[k]).0.from.id != n && laid[k].0.to.id
                        != n) ==> self.nodes@[n].same_as(&before.nodes@[n])
                &&& self.nodes@[n].outgoing@ == before.nodes@[n].outgoing@ + departing(
                    laid,
                    inner,
                    n,
                    laid.len() as int,
                )
                &&& self.nodes@[n].incoming@ == before.nodes@[n].incoming@ + arriving(
                    laid,
                    inner,
                    n,
                    laid.len() as int,
                )
            }
        &&& forall|k: int| 0 <= k < laid.len() ==> before.fits(#[trigger] laid[k].0)
    }

    /// Whether `segment` joins two nodes of the network and is as long as
    /// its shape and the places of the two give.
    pub open spec fn fits(&self, segment: Segment) -> bool {
        &&& segment.from.id < self.nodes@.len()
        &&& segment.to.id < self.nodes@.len()
        &&& segment.length == segment.geometry.length_spec(
            self.nodes@[segment.from.id as int].position,
            self.nodes@[segment.to.id as int].position,
        )
    }

    /// Whether node `n` stands at `position`.
    pub open spec fn stands_at(&self, n: Id<Node>, position: Vec3) -> bool {
        n.id < self.nodes@.len() && self.nodes@[n.id as int].position == position
    }

    /// Nothing laid is a laying.
    pub proof fn lemma_laid_nothing(&self)
        ensures
            self.laid(self, Seq::empty(), Seq::empty(), Seq::empty()),
    {
        reveal(Road::laid);
        let laid = Seq::<(Segment, Vec3)>::empty();
        assert forall|n: int| 0 <= n < self.nodes@.len() implies self.nodes@[n].outgoing@
            == self.nodes@[n].outgoing@ + departing(laid, Seq::empty(), n, 0)
            && self.nodes@[n].incoming@ == self.nodes@[n].incoming@ + arriving(
            laid,
            Seq::empty(),
            n,
            0,
        ) by {
            assert(self.nodes@[n].outgoing@ + Seq::<Id<Segment>>::empty()
                =~= self.nodes@[n].outgoing@);
            assert(self.nodes@[n].incoming@ + Seq::<Id<Segment>>::empty()
                =~= self.nodes@[n].incoming@);
        }
        assert(self.segments@ =~= self.segments@ + laid.map_values(|p: (Segment, Vec3)| p.0));
        assert(Seq::<Vec3>::empty() =~= laid.map_values(|p: (Segment, Vec3)| p.1));
    }

    /// One more segment attached after a laying is a laying.
    #[verifier::rlimit(40)]
    pub proof fn lemma_laid_push(
        &self,
        before: &Road,
        mid: &Road,
        laid: Seq<(Segment, Vec3)>,
        inner: Seq<Id<Segment>>,
        directions: Seq<Vec3>,
        segment: Segment,
        direction: Vec3,
        id: Id<Segment>,
    )
        requires
            mid.laid(before, laid, inner, directions),
            self.attached(mid, segment, id),
            mid.fits(segment),
        ensures
            self.laid(
                before,
                laid.push((segment, direction)),
                inner.push(id),
                directions.push(direction),
            ),
    {
        reveal(Road::laid);
        let more = laid.push((segment, direction));
        let more_inner = inner.push(id);
        let count = laid.len() as int;
        assert(self.segments@ =~= before.segments@ + more.map_values(|p: (Segment, Vec3)| p.0));
        assert(directions.push(direction) =~= more.map_values(|p: (Segment, Vec3)| p.1));
        assert forall|k: int| 0 <= k < more.len() implies before.fits(#[trigger] more[k].0) by {
            if k < count {
                assert(more[k] == laid[k]);
            } else {
                assert(mid.nodes@[segment.from.id as int].same_point(
                    &before.nodes@[segment.from.id as int],
                ));
                assert(mid.nodes@[segment.to.id as int].same_point(
                    &before.nodes@[segment.to.id as int],
                ));
            }
        }
        assert forall|n: int| 0 <= n < self.nodes@.len() implies {
            &&& (#[trigger] self.nodes@[n]).same_point(&before.nodes@[n])
            &&& forall|x: int|
                lists(before.nodes@[n].incoming@, x) ==> lists(self.nodes@[n].incoming@, x)
            &&& forall|x: int|
                lists(before.nodes@[n].outgoing@, x) ==> lists(self.nodes@[n].outgoing@, x)
            &&& (forall|k: int|
                0 <= k < more.len() ==> (#[trigger] more[k]).0.from.id != n && more[k].0.to.id
                    != n) ==> self.nodes@[n].same_as(&before.nodes@[n])
            &&& self.nodes@[n].outgoing@ == before.nodes@[n].outgoing@ + departing(
                more,
                more_inner,
                n,
                more.len() as int,
            )
            &&& self.nodes@[n].incoming@ == before.nodes@[n].incoming@ + arriving(
                more,
                more_inner,
                n,
                more.len() as int,
            )
        } by {
            assert(mid.nodes@[n].same_point(&before.nodes@[n]));
            lemma_lists_push(mid.nodes@[n].incoming@, id);
            lemma_lists_push(mid.nodes@[n].outgoing@, id);
            lemma_attached_prefix(laid, inner, more, more_inner, n, count);
            assert(more[count].0 == segment);
            assert(more_inner[count] == id);
            assert(self.nodes@[n].outgoing@ =~= before.nodes@[n].outgoing@ + departing(
                more,
                more_inner,
                n,
                count + 1,
            ));
            assert(self.nodes@[n].incoming@ =~= before.nodes@[n].incoming@ + arriving(
                more,
                more_inner,
                n,
                count + 1,
            ));
            if forall|k: int|
                0 <= k < more.len() ==> (#[trigger] more[k]).0.from.id != n && more[k].0.to.id
                    != n {
                assert(more[laid.len() as int].0 == segment);
                assert forall|k: int| 0 <= k < laid.len() implies (#[trigger] laid[k]).0.from.id
                    != n && laid[k].0.to.id != n by {
                    assert(more[k] == laid[k]);
                }
            }
        }
    }

    /// Lays the paths from one arriving road to every leaving road but the
    /// one that leads back, after `rows` were laid on `before`.
    #[verifier::rlimit(40)]
    fn lay_row(
        &mut self,
        entry: Approach,
        from: Id<Node>,
        exits: &Vec<Approach>,
        exit_ring: &Vec<Id<Node>>,
        inner: Vec<Id<Segment>>,
        directions: Vec<Vec3>,
        Ghost(before): Ghost<Road>,
        Ghost(rows): Ghost<Seq<(Segment, Vec3)>>,
    ) -> (r: (Vec<Id<Segment>>, Vec<Vec3>))
        requires
            old(self).wf(),
            old(self).nodes@.len() == before.nodes@.len(),
            old(self).laid(&before, rows, inner@, directions@),
            exit_ring@.len() == exits@.len(),
            old(self).stands_at(from, entry.position),
            forall|k: int|
                0 <= k < exit_ring@.len() ==> old(self).stands_at(
                    #[trigger] exit_ring@[k],
                    exits@[k].position,
                ),
        ensures
            final(self).wf(),
            final(self).nodes@.len() == before.nodes@.len(),
            final(self).laid(
                &before,
                rows + turn_row_spec(entry, from, exits@, exit_ring@, exits@.len() as int),
                r.0@,
                r.1@,
            ),
            forall|n: Id<Node>, position: Vec3| #[trigger]
                old(self).stands_at(n, position) ==> final(self).stands_at(n, position),
    {
        let mut inner = inner;
        let mut directions = directions;
        let mut j: usize = 0;
        proof {
            assert(rows + turn_row_spec(entry, from, exits@, exit_ring@, 0) =~= rows);
        }
        while j < exits.len()
            invariant
                self.wf(),
                self.nodes@.len() == before.nodes@.len(),
                j <= exits@.len(),
                exit_ring@.len() == exits@.len(),
                self.stands_at(from, entry.position),
                forall|k: int|
                    0 <= k < exit_ring@.len() ==> self.stands_at(
                        #[trigger] exit_ring@[k],
                        exits@[k].position,
                    ),
                forall|n: Id<Node>, position: Vec3| #[trigger]
                    old(self).stands_at(n, position) ==> self.stands_at(n, position),
                self.laid(
                    &before,
                    rows + turn_row_spec(entry, from, exits@, exit_ring@, j as int),
                    inner@,
                    directions@,
                ),
            decreases exits@.len() - j,
        {
            let exit = exits[j];
            let to = exit_ring[j];
            let ghost row = turn_row_spec(entry, from, exits@, exit_ring@, j as int);
            match turn_between(&entry, &exit) {
                Some(turn) => {
                    let segment = Segment {
                        from,
                        to,
                        speed_limit: TURN_SPEED,
                        geometry: turn.0,
                        turn_type: turn.1,
                        length: turn.0.length(entry.position, exit.position),
                    };
                    let grown = self.lay(
                        segment,
                        entry.direction,
                        inner,
                        directions,
                        Ghost(before),
                        Ghost(rows + row),
                    );
                    inner = grown.0;
                    directions = grown.1;
                    proof {
                        assert(segment == turn_segment_spec(entry, from, exit, to, turn));
                        assert((rows + row).push((segment, entry.direction)) =~= rows
                            + turn_row_spec(entry, from, exits@, exit_ring@, j + 1));
                    }
                },
                None => {
                    proof {
                        assert(turn_row_spec(entry, from, exits@, exit_ring@, j + 1) == row);
                    }
                },
            }
            j += 1;
        }
        (inner, directions)
    }

    /// Lays the paths across a plain intersection: from every arriving road
    /// to every leaving road but the one that leads back. Returns their
    /// indices and, for each, the heading of a vehicle that enters it.
    #[verifier::rlimit(40)]
    pub fn lay_turns(
        &mut self,
        entries: &Vec<Approach>,
        entry_ring: &Vec<Id<Node>>,
        exits: &Vec<Approach>,
        exit_ring: &Vec<Id<Node>>,
    ) -> (r: (Vec<Id<Segment>>, Vec<Vec3>))
        requires
            old(self).wf(),
            entry_ring@.len() == entries@.len(),
            exit_ring@.len() == exits@.len(),
            forall|k: int|
                0 <= k < entry_ring@.len() ==> old(self).stands_at(
                    #[trigger] entry_ring@[k],
                    entries@[k].position,
                ),
            forall|k: int|
                0 <= k < exit_ring@.len() ==> old(self).stands_at(
                    #[trigger] exit_ring@[k],
                    exits@[k].position,
                ),
        ensures
            final(self).wf(),
            final(self).laid(
                old(self),
                turn_rows_spec(entries@, entry_ring@, exits@, exit_ring@, entries@.len() as int),
                r.0@,
                r.1@,
            ),
    {
        let mut inner: Vec<Id<Segment>> = Vec::new();
        let mut directions: Vec<Vec3> = Vec::new();
        let mut i: usize = 0;
        proof {
            self.lemma_laid_nothing();
        }
        while i < entries.len()
            invariant
                self.wf(),
                self.nodes@.len() == old(self).nodes@.len(),
                i <= entries@.len(),
                entry_ring@.len() == entries@.len(),
                exit_ring@.len() == exits@.len(),
                forall|k: int|
                    0 <= k < entry_ring@.len() ==> self.stands_at(
                        #[trigger] entry_ring@[k],
                        entries@[k].position,
                    ),
                forall|k: int|
                    0 <= k < exit_ring@.len() ==> self.stands_at(
                        #[trigger] exit_ring@[k],
                        exits@[k].position,
                    ),
                self.laid(
                    old(self),
                    turn_rows_spec(entries@, entry_ring@, exits@, exit_ring@, i as int),
                    inner@,
                    directions@,
                ),
            decreases entries@.len() - i,
        {
            let ghost rows = turn_rows_spec(entries@, entry_ring@, exits@, exit_ring@, i as int);
            let grown = self.lay_row(
                entries[i],
                entry_ring[i],
                exits,
                exit_ring,
                inner,
                directions,
                Ghost(*old(self)),
                Ghost(rows),
            );
            inner = grown.0;
            directions = grown.1;
            i += 1;
        }
        (inner, directions)
    }

    /// Attaches one more segment after `rows` were laid on `before`.
    fn lay(
        &mut self,
        segment: Segment,
        direction: Vec3,
        inner: Vec<Id<Segment>>,
        directions: Vec<Vec3>,
        Ghost(before): Ghost<Road>,
        Ghost(rows): Ghost<Seq<(Segment, Vec3)>>,
    ) -> (r: (Vec<Id<Segment>>, Vec<Vec3>))
        requires
            old(self).wf(),
            old(self).nodes@.len() == before.nodes@.len(),
            old(self).laid(&before, rows, inner@, directions@),
            old(self).fits(segment),
        ensures
            final(self).wf(),
            final(self).nodes@.len() == before.nodes@.len(),
            final(self).laid(&before, rows.push((segment, direction)), r.0@, r.1@),
            forall|n: Id<Node>, position: Vec3| #[trigger]
                old(self).stands_at(n, position) ==> final(self).stands_at(n, position),
    {
        let mut inner = inner;
        let mut directions = directions;
        let ghost mid = *self;
        let id = self.attach(segment);
        proof {
            self.lemma_laid_push(&before, &mid, rows, inner@, directions@, segment, direction, id);
            assert forall|n: Id<Node>, position: Vec3| #[trigger]
                mid.stands_at(n, position) implies self.stands_at(n, position) by {
                assert(self.nodes@[n.id as int].same_point(&mid.nodes@[n.id as int]));
            }
        }
        inner.push(id);
        directions.push(direction);
        (inner, directions)
    }

    /// Plants the nodes on the circle of a roundabout: one for each arriving
    /// road, in the order given.
    pub fn plant_circle(&mut self, center: Vec3, entries: &Vec<Arm>) -> (r: Vec<Id<Node>>)
        requires
            old(self).wf(),
        ensures
            final(self).wf(),
            final(self).segments@ == old(self).segments@,
            final(self).intersections@ == old(self).intersections@,
            final(self).nodes@.len() == old(self).nodes@.len() + entries@.len(),
            r@.len() == entries@.len(),
            forall|k: int| 0 <= k < r@.len() ==> (#[trigger] r@[k]).id == old(self).nodes@.len() + k,
            forall|n: int|
                0 <= n < old(self).nodes@.len() ==> final(self).nodes@[n] == old(self).nodes@[n],
            forall|k: int|
                0 <= k < entries@.len() ==> {
                    &&& (#[trigger] final(self).nodes@[old(self).nodes@.len() + k]).planted(
                        circle_position_spec(center, entries@[k].0.angle),
                    )
                    &&& final(self).nodes@[old(self).nodes@.len() + k].incoming@.len() == 0
                    &&& final(self).nodes@[old(self).nodes@.len() + k].outgoing@.len() == 0
                },
    {
        let ghost base = self.nodes@.len() as int;
        let mut ring: Vec<Id<Node>> = Vec::new();
        let mut k: usize = 0;
        while k < entries.len()
            invariant
                self.wf(),
                base == old(self).nodes@.len(),
                k <= entries@.len(),
                self.segments@ == old(self).segments@,
                self.intersections@ == old(self).intersections@,
                self.nodes@.len() == base + k,
                ring@.len() == k,
                forall|i: int| 0 <= i < k ==> (#[trigger] ring@[i]).id == base + i,
                forall|n: int| 0 <= n < base ==> self.nodes@[n] == old(self).nodes@[n],
                forall|i: int|
                    0 <= i < k ==> {
                        &&& (#[trigger] self.nodes@[base + i]).planted(
                            circle_position_spec(center, entries@[i].0.angle),
                        )
                        &&& self.nodes@[base + i].incoming@.len() == 0
                        &&& self.nodes@[base + i].outgoing@.len() == 0
                    },
            decreases entries@.len() - k,
        {
            let node = self.add_node(circle_position(center, entries[k].0.angle));
            ring.push(node);
            k += 1;
        }
        ring
    }
}

/// The ramps from the first `k` arriving roads onto the circle.
pub open spec fn on_ramps_spec(center: Vec3, entries: Seq<Arm>, circle: Seq<Id<Node>>, k: int) -> Seq<
    (Segment, Vec3),
>
    decreases k,
{
    if k <= 0 {
        Seq::empty()
    } else {
        let arm = entries[k - 1];
        on_ramps_spec(center, entries, circle, k - 1).push(
            (
                ramp_spec(
                    arm.1,
                    arm.0.position,
                    arm.0.direction,
                    circle[k - 1],
                    circle_position_spec(center, arm.0.angle),
                    TurnType::RoundaboutEntry,
                ),
                arm.0.direction,
            ),
        )
    }
}

/// The first `k` arcs of the circle: each from the node of one arriving road
/// to the node of the next, and from the last back to the first.
pub open spec fn circle_arcs_spec(center: Vec3, entries: Seq<Arm>, circle: Seq<Id<Node>>, k: int) -> Seq<
    (Segment, Vec3),
>
    decreases k,
{
    if k <= 0 {
        Seq::empty()
    } else {
        let next = k % (entries.len() as int);
        let here = circle_position_spec(center, entries[k - 1].0.angle);
        circle_arcs_spec(center, entries, circle, k - 1).push(
            (
                circle_arc_spec(
                    center,
                    circle[k - 1],
                    here,
                    circle[next],
                    circle_position_spec(center, entries[next].0.angle),
                ),
                circle_heading_spec(center, here),
            ),
        )
    }
}

/// The ramps from the circle to the first `i` leaving roads: the ramp to a
/// leaving road starts at the node on the circle before the one at the same
/// position.
pub open spec fn off_ramps_spec(
    center: Vec3,
    entries: Seq<Arm>,
    circle: Seq<Id<Node>>,
    exits: Seq<Arm>,
    i: int,
) -> Seq<(Segment, Vec3)>
    decreases i,
{
    if i <= 0 {
        Seq::empty()
    } else {
        let at = (i - 1 + entries.len() - 1) % (entries.len() as int);
        let here = circle_position_spec(center, entries[at].0.angle);
        let heading = circle_heading_spec(center, here);
        let arm = exits[i - 1];
        off_ramps_spec(center, entries, circle, exits, i - 1).push(
            (
                ramp_spec(
                    circle[at],
                    here,
                    heading,
                    arm.1,
                    arm.0.position,
                    TurnType::RoundaboutExit,
                ),
                heading,
            ),
        )
    }
}

/// All paths of a roundabout: the ramps onto the circle, the circle, and the
/// ramps off it. Without an arriving road there is no circle and no path.
pub open spec fn roundabout_spec(center: Vec3, entries: Seq<Arm>, circle: Seq<Id<Node>>, exits: Seq<Arm>) -> Seq<
    (Segment, Vec3),
> {
    if entries.len() == 0 {
        Seq::empty()
    } else {
        on_ramps_spec(center, entries, circle, entries.len() as int) + circle_arcs_spec(
            center,
            entries,
            circle,
            entries.len() as int,
        ) + off_ramps_spec(center, entries, circle, exits, exits.len() as int)
    }
}

impl Road {
    /// Lays the paths of a roundabout round `center`, for arriving and
    /// leaving roads in ascending order of their angles and the nodes planted
    /// on the circle. Returns the indices of the paths and, for each, the
    /// heading of a vehicle that enters it.
    #[verifier::rlimit(40)]
    pub fn lay_roundabout(
        &mut self,
        center: Vec3,
        entries: &Vec<Arm>,
        circle: &Vec<Id<Node>>,
        exits: &Vec<Arm>,
    ) -> (r: (Vec<Id<Segment>>, Vec<Vec3>))
        requires
            old(self).wf(),
            circle@.len() == entries@.len(),
            forall|k: int|
                0 <= k < entries@.len() ==> old(self).stands_at(
                    (#[trigger] entries@[k]).1,
                    entries@[k].0.position,
                ),
            forall|k: int|
                0 <= k < circle@.len() ==> old(self).stands_at(
                    #[trigger] circle@[k],
                    circle_position_spec(center, entries@[k].0.angle),
                ),
            forall|k: int|
                0 <= k < exits@.len() ==> old(self).stands_at(
                    (#[trigger] exits@[k]).1,
                    exits@[k].0.position,
                ),
        ensures
            final(self).wf(),
            final(self).laid(old(self), roundabout_spec(center, entries@, circle@, exits@), r.0@, r.1@),
    {
        let mut inner: Vec<Id<Segment>> = Vec::new();
        let mut directions: Vec<Vec3> = Vec::new();
        let count = entries.len();
        proof {
            self.lemma_laid_nothing();
        }
        if count == 0 {
            return (inner, directions);
        }
        let mut k: usize = 0;
        while k < count
            invariant
                self.wf(),
                self.nodes@.len() == old(self).nodes@.len(),
                count == entries@.len(),
                circle@.len() == entries@.len(),
                k <= count,
                forall|k: int|
                    0 <= k < entries@.len() ==> self.stands_at(
                        (#[trigger] entries@[k]).1,
                        entries@[k].0.position,
                    ),
                forall|k: int|
                    0 <= k < circle@.len() ==> self.stands_at(
                        #[trigger] circle@[k],
                        circle_position_spec(center, entries@[k].0.angle),
                    ),
                forall|k: int|
                    0 <= k < exits@.len() ==> self.stands_at(
                        (#[trigger] exits@[k]).1,
                        exits@[k].0.position,
                    ),
                self.laid(
                    old(self),
                    on_ramps_spec(center, entries@, circle@, k as int),
                    inner@,
                    directions@,
                ),
            decreases count - k,
        {
            let arm = entries[k];
            let segment = ramp(
                arm.1,
                arm.0.position,
                arm.0.direction,
                circle[k],
                circle_position(center, arm.0.angle),
                TurnType::RoundaboutEntry,
            );
            let grown = self.lay(
                segment,
                arm.0.direction,
                inner,
                directions,
                Ghost(*old(self)),
                Ghost(on_ramps_spec(center, entries@, circle@, k as int)),
            );
            inner = grown.0;
            directions = grown.1;
            k += 1;
        }
        let ghost ramps = on_ramps_spec(center, entries@, circle@, count as int);
        let mut c: usize = 0;
        proof {
            assert(ramps + circle_arcs_spec(center, entries@, circle@, 0) =~= ramps);
        }
        while c < count
            invariant
                self.wf(),
                self.nodes@.len() == old(self).nodes@.len(),
                count == entries@.len(),
                circle@.len() == entries@.len(),
                c <= count,
                ramps == on_ramps_spec(center, entries@, circle@, count as int),
                forall|k: int|
                    0 <= k < circle@.len() ==> self.stands_at(
                        #[trigger] circle@[k],
                        circle_position_spec(center, entries@[k].0.angle),
                    ),
                forall|k: int|
                    0 <= k < exits@.len() ==> self.stands_at(
                        (#[trigger] exits@[k]).1,
                        exits@[k].0.position,
                    ),
                self.laid(
                    old(self),
                    ramps + circle_arcs_spec(center, entries@, circle@, c as int),
                    inner@,
                    directions@,
                ),
            decreases count - c,
        {
            let next = (c + 1) % count;
            let here = circle_position(center, entries[c].0.angle);
            let segment = circle_arc(
                center,
                circle[c],
                here,
                circle[next],
                circle_position(center, entries[next].0.angle),
            );
            let heading = circle_heading(center, here);
            let ghost rows = ramps + circle_arcs_spec(center, entries@, circle@, c as int);
            let grown = self.lay(
                segment,
                heading,
                inner,
                directions,
                Ghost(*old(self)),
                Ghost(rows),
            );
            inner = grown.0;
            directions = grown.1;
            proof {
                assert(rows.push((segment, heading)) =~= ramps + circle_arcs_spec(
                    center,
                    entries@,
                    circle@,
                    c + 1,
                ));
            }
            c += 1;
        }
        let ghost ring = ramps + circle_arcs_spec(center, entries@, circle@, count as int);
        let mut i: usize = 0;
        proof {
            assert(ring + off_ramps_spec(center, entries@, circle@, exits@, 0) =~= ring);
        }
        while i < exits.len()
            invariant
                self.wf(),
                self.nodes@.len() == old(self).nodes@.len(),
                count == entries@.len(),
                count > 0,
                circle@.len() == entries@.len(),
                i <= exits@.len(),
                ring == on_ramps_spec(center, entries@, circle@, count as int) + circle_arcs_spec(
                    center,
                    entries@,
                    circle@,
                    count as int,
                ),
                forall|k: int|
                    0 <= k < circle@.len() ==> self.stands_at(
                        #[trigger] circle@[k],
                        circle_position_spec(center, entries@[k].0.angle),
                    ),
                forall|k: int|
                    0 <= k < exits@.len() ==> self.stands_at(
                        (#[trigger] exits@[k]).1,
                        exits@[k].0.position,
                    ),
                self.laid(
                    old(self),
                    ring + off_ramps_spec(center, entries@, circle@, exits@, i as int),
                    inner@,
                    directions@,
                ),
            decreases exits@.len() - i,
        {
            let place = i % count;
            let at = if place == 0 {
                count - 1
            } else {
                place - 1
            };
            proof {
                lemma_before_on_circle(i as int, count as int);
            }
            let here = circle_position(center, entries[at].0.angle);
            let heading = circle_heading(center, here);
            let arm = exits[i];
            let segment = ramp(
                circle[at],
                here,
                heading,
                arm.1,
                arm.0.position,
                TurnType::RoundaboutExit,
            );
            let ghost rows = ring + off_ramps_spec(center, entries@, circle@, exits@, i as int);
            let grown = self.lay(
                segment,
                heading,
                inner,
                directions,
                Ghost(*old(self)),
                Ghost(rows),
            );
            inner = grown.0;
            directions = grown.1;
            proof {
                assert(rows.push((segment, heading)) =~= ring + off_ramps_spec(
                    center,
                    entries@,
                    circle@,
                    exits@,
                    i + 1,
                ));
            }
            i += 1;
        }
        (inner, directions)
    }
}

/// Stepping back by one on a circle of `n` places.
pub proof fn lemma_before_on_circle(i: int, n: int)
    requires
        0 <= i,
        0 < n,
    ensures
        (i + n - 1) % n == if i % n == 0 {
            n - 1
        } else {
            i % n - 1
        },
{
    vstd::arithmetic::div_mod::lemma_add_mod_noop(i, n - 1, n);
    vstd::arithmetic::div_mod::lemma_small_mod((n - 1) as nat, n as nat);
    if i % n == 0 {
        vstd::arithmetic::div_mod::lemma_small_mod((n - 1) as nat, n as nat);
    } else {
        vstd::arithmetic::div_mod::lemma_mod_multiples_vanish(1, i % n - 1, n);
        vstd::arithmetic::div_mod::lemma_small_mod((i % n - 1) as nat, n as nat);
    }
}

/// Whether every segment of `laid` starts and ends at a node whose index is
/// at least `low`.
pub open spec fn ends_from(laid: Seq<(Segment, Vec3)>, low: int) -> bool {
    forall|p: int|
        0 <= p < laid.len() ==> (#[trigger] laid[p]).0.from.id >= low && laid[p].0.to.id >= low
}

/// The paths across a plain intersection start and end on its rim.
pub proof fn lemma_turn_rows_ends(
    entries: Seq<Approach>,
    entry_ring: Seq<Id<Node>>,
    exits: Seq<Approach>,
    exit_ring: Seq<Id<Node>>,
    i: int,
    low: int,
)
    requires
        0 <= i <= entries.len(),
        entry_ring.len() == entries.len(),
        exit_ring.len() == exits.len(),
        forall|k: int| 0 <= k < entry_ring.len() ==> (#[trigger] entry_ring[k]).id >= low,
        forall|k: int| 0 <= k < exit_ring.len() ==> (#[trigger] exit_ring[k]).id >= low,
    ensures
        ends_from(turn_rows_spec(entries, entry_ring, exits, exit_ring, i), low),
    decreases i,
{
    if i > 0 {
        lemma_turn_rows_ends(entries, entry_ring, exits, exit_ring, i - 1, low);
        lemma_turn_row_ends(entries[i - 1], entry_ring[i - 1], exits, exit_ring, exits.len() as int, low);
    }
}

/// The paths from one arriving road start and end on the rim.
pub proof fn lemma_turn_row_ends(
    entry: Approach,
    from: Id<Node>,
    exits: Seq<Approach>,
    exit_ring: Seq<Id<Node>>,
    j: int,
    low: int,
)
    requires
        0 <= j <= exits.len(),
        exit_ring.len() == exits.len(),
        from.id >= low,
        forall|k: int| 0 <= k < exit_ring.len() ==> (#[trigger] exit_ring[k]).id >= low,
    ensures
        ends_from(turn_row_spec(entry, from, exits, exit_ring, j), low),
    decreases j,
{
    if j > 0 {
        lemma_turn_row_ends(entry, from, exits, exit_ring, j - 1, low);
    }
}

/// The paths of a roundabout start and end on its rim or on its circle.
pub proof fn lemma_roundabout_ends(
    center: Vec3,
    entries: Seq<Arm>,
    circle: Seq<Id<Node>>,
    exits: Seq<Arm>,
    low: int,
)
    requires
        circle.len() == entries.len(),
        forall|k: int| 0 <= k < entries.len() ==> (#[trigger] entries[k]).1.id >= low,
        forall|k: int| 0 <= k < circle.len() ==> (#[trigger] circle[k]).id >= low,
        forall|k: int| 0 <= k < exits.len() ==> (#[trigger] exits[k]).1.id >= low,
    ensures
        ends_from(roundabout_spec(center, entries, circle, exits), low),
{
    if entries.len() > 0 {
        lemma_on_ramps_ends(center, entries, circle, entries.len() as int, low);
        lemma_circle_arcs_ends(center, entries, circle, entries.len() as int, low);
        lemma_off_ramps_ends(center, entries, circle, exits, exits.len() as int, low);
    }
}

proof fn lemma_on_ramps_ends(center: Vec3, entries: Seq<Arm>, circle: Seq<Id<Node>>, k: int, low: int)
    requires
        0 <= k <= entries.len(),
        circle.len() == entries.len(),
        forall|k: int| 0 <= k < entries.len() ==> (#[trigger] entries[k]).1.id >= low,
        forall|k: int| 0 <= k < circle.len() ==> (#[trigger] circle[k]).id >= low,
    ensures
        ends_from(on_ramps_spec(center, entries, circle, k), low),
    decreases k,
{
    if k > 0 {
        lemma_on_ramps_ends(center, entries, circle, k - 1, low);
    }
}

proof fn lemma_circle_arcs_ends(center: Vec3, entries: Seq<Arm>, circle: Seq<Id<Node>>, k: int, low: int)
    requires
        0 <= k <= entries.len(),
        circle.len() == entries.len(),
        forall|k: int| 0 <= k < circle.len() ==> (#[trigger] circle[k]).id >= low,
    ensures
        ends_from(circle_arcs_spec(center, entries, circle, k), low),
    decreases k,
{
    if k > 0 {
        lemma_circle_arcs_ends(center, entries, circle, k - 1, low);
        let next = k % (entries.len() as int);
        assert(0 <= next < circle.len());
    }
}

proof fn lemma_off_ramps_ends(
    center: Vec3,
    entries: Seq<Arm>,
    circle: Seq<Id<Node>>,
    exits: Seq<Arm>,
    i: int,
    low: int,
)
    requires
        0 <= i <= exits.len(),
        entries.len() > 0,
        circle.len() == entries.len(),
        forall|k: int| 0 <= k < circle.len() ==> (#[trigger] circle[k]).id >= low,
        forall|k: int| 0 <= k < exits.len() ==> (#[trigger] exits[k]).1.id >= low,
    ensures
        ends_from(off_ramps_spec(center, entries, circle, exits, i), low),
    decreases i,
{
    if i > 0 {
        lemma_off_ramps_ends(center, entries, circle, exits, i - 1, low);
        let at = (i - 1 + entries.len() - 1) % (entries.len() as int);
        assert(0 <= at < circle.len());
    }
}

} // verus!

//! The two directions of a road run along the same line when the network is
//! built. Here every straight segment is moved a lane's offset to the right
//! of its direction, so that the directions get lanes of their own.

use crate::arena::Id;
use crate::geometry::SegmentGeometry;
use crate::junction::LANE_OFFSET;
use crate::rewire::{lemma_without, without, without_spec};
use crate::road::{lists, Node, Road, Segment};
use crate::vector::Vec3;
use vstd::prelude::*;

verus! {

/// What is to be done for one straight segment, as recorded before any of
/// them is moved.
#[derive(Clone, Copy, Debug)]
pub struct LaneShift {
    pub segment: Id<Segment>,
    /// Where the segment is to start, if its start is moved.
    pub from_position: Vec3,
    /// Where the segment is to end, if its end is moved.
    pub to_position: Vec3,
    /// The start stands on the rim of an intersection and stays.
    pub from_is_edge: bool,
    /// The end stands on the rim of an intersection and stays.
    pub to_is_edge: bool,
    /// Vehicles appeared at the start.
    pub from_is_spawn: bool,
    /// Vehicles left at the end.
    pub to_is_despawn: bool,
}

impl Road {
    /// Whether node `n` stands on the rim of an intersection.
    pub open spec fn on_rim(&self, n: int) -> bool {
        exists|i: int, k: int|
            0 <= i < self.intersections@.len() && 0 <= k
                < self.intersections@[i].edge_nodes@.len()
                && (#[trigger] self.intersections@[i].edge_nodes@[k]).id == n
    }

    /// What is to be done for segment `s`.
    pub open spec fn lane_shift_spec(&self, s: int) -> LaneShift {
        let segment = self.segments@[s];
        let from = self.nodes@[segment.from.id as int];
        let to = self.nodes@[segment.to.id as int];
        let offset = to.position.minus_spec(from.position).normalized_spec().right_spec().scaled_spec(
            LANE_OFFSET,
        );
        LaneShift {
            segment: Id::of(s as usize),
            from_position: from.position.plus_spec(offset),
            to_position: to.position.plus_spec(offset),
            from_is_edge: self.on_rim(segment.from.id as int),
            to_is_edge: self.on_rim(segment.to.id as int),
            from_is_spawn: from.is_spawn,
            to_is_despawn: to.is_despawn,
        }
    }
}

impl Road {
    /// Whether `node` stands on the rim of an intersection.
    pub fn is_on_rim(&self, node: Id<Node>) -> (r: bool)
        ensures
            r == self.on_rim(node.id as int),
    {
        let mut i: usize = 0;
        while i < self.intersections.len()
            invariant
                i <= self.intersections@.len(),
                forall|a: int, k: int|
                    0 <= a < i && 0 <= k < self.intersections@[a].edge_nodes@.len() ==> (
                    #[trigger] self.intersections@[a].edge_nodes@[k]).id != node.id,
            decreases self.intersections@.len() - i,
        {
            let rim = &self.intersections.get(&Id::new(i)).edge_nodes;
            let mut k: usize = 0;
            while k < rim.len()
                invariant
                    i < self.intersections@.len(),
                    *rim == self.intersections@[i as int].edge_nodes,
                    k <= rim@.len(),
                    forall|b: int| 0 <= b < k ==> (#[trigger] rim@[b]).id != node.id,
                decreases rim@.len() - k,
            {
                if rim[k].id == node.id {
                    return true;
                }
                k += 1;
            }
            i += 1;
        }
        false
    }

    /// Records what is to be done for `segment`.
    pub fn plan_lane(&self, segment: Id<Segment>) -> (r: LaneShift)
        requires
            self.wf(),
            segment.id < self.segments@.len(),
        ensures
            r == self.lane_shift_spec(segment.id as int),
    {
        proof {
            assert(self.wired(segment.id as int));
        }
        let path = self.segments.get(&segment);
        let from = self.nodes.get(&path.from);
        let to = self.nodes.get(&path.to);
        let offset = to.position.minus(from.position).normalized().right().scaled(LANE_OFFSET);
        LaneShift {
            segment: Id::new(segment.id),
            from_position: from.position.plus(offset),
            to_position: to.position.plus(offset),
            from_is_edge: self.is_on_rim(path.from),
            to_is_edge: self.is_on_rim(path.to),
            from_is_spawn: from.is_spawn,
            to_is_despawn: to.is_despawn,
        }
    }

    /// Whether segment `s` is a straight line.
    pub open spec fn is_straight(&self, s: int) -> bool {
        self.segments@[s].geometry is Straight
    }

    /// The indices of the straight segments among the first `k`, ascending.
    pub open spec fn straights_upto(&self, k: int) -> Seq<int>
        decreases k,
    {
        if k <= 0 {
            Seq::empty()
        } else if self.is_straight(k - 1) {
            self.straights_upto(k - 1).push(k - 1)
        } else {
            self.straights_upto(k - 1)
        }
    }

    /// Records what is to be done for every straight segment, in ascending
    /// order of the segments.
    pub fn plan_lanes(&self) -> (r: Vec<LaneShift>)
        requires
            self.wf(),
        ensures
            r@.len() == self.straights_upto(self.segments@.len() as int).len(),
            forall|k: int|
                0 <= k < r@.len() ==> #[trigger] r@[k] == self.lane_shift_spec(
                    self.straights_upto(self.segments@.len() as int)[k],
                ),
            forall|k: int| 0 <= k < r@.len() ==> (#[trigger] r@[k]).segment.id < self.segments@.len(),
    {
        let mut out: Vec<LaneShift> = Vec::new();
        let mut s: usize = 0;
        while s < self.segments.len()
            invariant
                self.wf(),
                s <= self.segments@.len(),
                out@.len() == self.straights_upto(s as int).len(),
                forall|k: int|
                    0 <= k < out@.len() ==> #[trigger] out@[k] == self.lane_shift_spec(
                        self.straights_upto(s as int)[k],
                    ),
                forall|k: int|
                    0 <= k < out@.len() ==> (#[trigger] out@[k]).segment.id < self.segments@.len(),
            decreases self.segments@.len() - s,
        {
            let id = Id::new(s);
            if let SegmentGeometry::Straight = self.segments.get(&id).geometry {
                out.push(self.plan_lane(id));
            }
            proof {
                assert(self.is_straight(s as int) == (self.segments@[s as int].geometry
                    is Straight));
            }
            s += 1;
        }
        out
    }

    /// The state after `segment` was given a new node to start from.
    pub open spec fn start_moved(
        &self,
        before: &Road,
        segment: Id<Segment>,
        position: Vec3,
        is_spawn: bool,
    ) -> bool {
        let s = segment.id as int;
        let old_from = before.segments@[s].from.id as int;
        let new_from = before.nodes@.len() as int;
        &&& self.intersections@ == before.intersections@
        &&& self.segments@ == before.segments@.update(
            s,
            (Segment { from: Id::of(new_from as usize), ..before.segments@[s] }),
        )
        &&& self.segments@[s].from.id == new_from
        &&& self.nodes@.len() == new_from + 1
        &&& forall|m: int|
            0 <= m < new_from && m != old_from ==> (#[trigger] self.nodes@[m]).same_as(
                &before.nodes@[m],
            )
        &&& self.nodes@[old_from].position == before.nodes@[old_from].position
        &&& self.nodes@[old_from].yield_resolver == before.nodes@[old_from].yield_resolver
        &&& !self.nodes@[old_from].is_spawn
        &&& !self.nodes@[old_from].is_despawn
        &&& self.nodes@[old_from].incoming@ == before.nodes@[old_from].incoming@
        &&& self.nodes@[old_from].outgoing@ == without_spec(
            before.nodes@[old_from].outgoing@,
            segment,
        )
        &&& self.nodes@[new_from].position == position
        &&& self.nodes@[new_from].is_spawn == is_spawn
        &&& !self.nodes@[new_from].is_despawn
        &&& self.nodes@[new_from].yield_resolver is None
        &&& self.nodes@[new_from].incoming@.len() == 0
        &&& self.nodes@[new_from].outgoing@ == seq![segment]
    }

    /// Gives `segment` a new node to start from, at `position`: the node it
    /// started from lists it no more and is no place to appear or leave at.
    #[verifier::rlimit(40)]
    pub fn move_start(&mut self, segment: Id<Segment>, position: Vec3, is_spawn: bool)
        requires
            old(self).wf(),
            segment.id < old(self).segments@.len(),
        ensures
            final(self).wf(),
            final(self).start_moved(old(self), segment, position, is_spawn),
    {
        proof {
            assert(old(self).wired(segment.id as int));
        }
        let old_from = self.segments.get(&segment).from;
        let new_from = self.nodes.allocate(
            Node {
                position,
                incoming: Vec::new(),
                outgoing: Vec::new(),
                is_spawn,
                is_despawn: false,
                yield_resolver: None,
            },
        );
        let node = self.nodes.get_mut(&old_from);
        let kept = without(&node.outgoing, segment);
        node.outgoing = kept;
        node.is_spawn = false;
        node.is_despawn = false;
        self.segments.get_mut(&segment).from = new_from;
        self.nodes.get_mut(&new_from).outgoing.push(segment);
        proof {
            let s = segment.id as int;
            let f = old_from.id as int;
            let nf = new_from.id as int;
            assert(new_from == Id::<Node>::of(nf as usize));
            assert(self.segments@ =~= old(self).segments@.update(
                s,
                (Segment { from: Id::of(nf as usize), ..old(self).segments@[s] }),
            ));
            assert(self.nodes@[nf].outgoing@ =~= seq![segment]);
            lemma_without(old(self).nodes@[f].outgoing@, segment);
            assert forall|m: int| 0 <= m < self.nodes@.len() implies (
            #[trigger] self.nodes@[m]).wf(self.segments@.len() as int) by {
                if m < nf {
                    assert(old(self).nodes@[m].wf(old(self).segments@.len() as int));
                }
            }
            assert forall|x: int| 0 <= x < self.segments@.len() implies self.wired(x) by {
                assert(old(self).wired(x));
                if x == s {
                    assert(self.nodes@[nf].outgoing@[0].id == s);
                } else {
                    let xf = old(self).segments@[x].from.id as int;
                    if xf == f {
                        assert(lists(self.nodes@[f].outgoing@, x));
                    }
                }
            }
            assert forall|i: int| 0 <= i < self.intersections@.len() implies (
            #[trigger] self.intersections@[i]).wf(
                self.nodes@.len() as int,
                self.segments@.len() as int,
            ) by {
                assert(old(self).intersections@[i].wf(
                    old(self).nodes@.len() as int,
                    old(self).segments@.len() as int,
                ));
            }
        }
    }

    /// The state after `segment` was given a new node to end at.
    pub open spec fn end_moved(
        &self,
        before: &Road,
        segment: Id<Segment>,
        position: Vec3,
        is_despawn: bool,
    ) -> bool {
        let s = segment.id as int;
        let old_to = before.segments@[s].to.id as int;
        let new_to = before.nodes@.len() as int;
        &&& self.intersections@ == before.intersections@
        &&& self.segments@ == before.segments@.update(
            s,
            (Segment { to: Id::of(new_to as usize), ..before.segments@[s] }),
        )
        &&& self.segments@[s].to.id == new_to
        &&& self.nodes@.len() == new_to + 1
        &&& forall|m: int|
            0 <= m < new_to && m != old_to ==> (#[trigger] self.nodes@[m]).same_as(
                &before.nodes@[m],
            )
        &&& self.nodes@[old_to].position == before.nodes@[old_to].position
        &&& self.nodes@[old_to].yield_resolver == before.nodes@[old_to].yield_resolver
        &&& !self.nodes@[old_to].is_spawn
        &&& !self.nodes@[old_to].is_despawn
        &&& self.nodes@[old_to].outgoing@ == before.nodes@[old_to].outgoing@
        &&& self.nodes@[old_to].incoming@ == without_spec(before.nodes@[old_to].incoming@, segment)
        &&& self.nodes@[new_to].position == position
        &&& !self.nodes@[new_to].is_spawn
        &&& self.nodes@[new_to].is_despawn == is_despawn
        &&& self.nodes@[new_to].yield_resolver is None
        &&& self.nodes@[new_to].outgoing@.len() == 0
        &&& self.nodes@[new_to].incoming@ == seq![segment]
    }

    /// Gives `segment` a new node to end at, at `position`: the node it ended
    /// at lists it no more and is no place to appear or leave at.
    #[verifier::rlimit(40)]
    pub fn move_end(&mut self, segment: Id<Segment>, position: Vec3, is_despawn: bool)
        requires
            old(self).wf(),
            segment.id < old(self).segments@.len(),
        ensures
            final(self).wf(),
            final(self).end_moved(old(self), segment, position, is_despawn),
    {
        proof {
            assert(old(self).wired(segment.id as int));
        }
        let old_to = self.segments.get(&segment).to;
        let new_to = self.nodes.allocate(
            Node {
                position,
                incoming: Vec::new(),
                outgoing: Vec::new(),
                is_spawn: false,
                is_despawn,
                yield_resolver: None,
            },
        );
        let node = self.nodes.get_mut(&old_to);
        let kept = without(&node.incoming, segment);
        node.incoming = kept;
        node.is_spawn = false;
        node.is_despawn = false;
        self.segments.get_mut(&segment).to = new_to;
        self.nodes.get_mut(&new_to).incoming.push(segment);
        proof {
            let s = segment.id as int;
            let t = old_to.id as int;
            let nt = new_to.id as int;
            assert(new_to == Id::<Node>::of(nt as usize));
            assert(self.segments@ =~= old(self).segments@.update(
                s,
                (Segment { to: Id::of(nt as usize), ..old(self).segments@[s] }),
            ));
            assert(self.nodes@[nt].incoming@ =~= seq![segment]);
            lemma_without(old(self).nodes@[t].incoming@, segment);
            assert forall|m: int| 0 <= m < self.nodes@.len() implies (
            #[trigger] self.nodes@[m]).wf(self.segments@.len() as int) by {
                if m < nt {
                    assert(old(self).nodes@[m].wf(old(self).segments@.len() as int));
                }
            }
            assert forall|x: int| 0 <= x < self.segments@.len() implies self.wired(x) by {
                assert(old(self).wired(x));
                if x == s {
                    assert(self.nodes@[nt].incoming@[0].id == s);
                } else {
                    let xt = old(self).segments@[x].to.id as int;
                    if xt == t {
                        assert(lists(self.nodes@[t].incoming@, x));
                    }
                }
            }
            assert forall|i: int| 0 <= i < self.intersections@.len() implies (
            #[trigger] self.intersections@[i]).wf(
                self.nodes@.len() as int,
                self.segments@.len() as int,
            ) by {
                assert(old(self).intersections@[i].wf(
                    old(self).nodes@.len() as int,
                    old(self).segments@.len() as int,
                ));
            }
        }
    }

    /// The length that segment `s` has by its shape and the places of its
    /// two ends.
    pub open spec fn measured(&self, s: int) -> i64 {
        let segment = self.segments@[s];
        segment.geometry.length_spec(
            self.nodes@[segment.from.id as int].position,
            self.nodes@[segment.to.id as int].position,
        )
    }

    /// Sets the length of `segment` to what its shape and its ends give.
    pub fn refresh_length(&mut self, segment: Id<Segment>)
        requires
            old(self).wf(),
            segment.id < old(self).segments@.len(),
        ensures
            final(self).wf(),
            final(self).nodes@ == old(self).nodes@,
            final(self).intersections@ == old(self).intersections@,
            final(self).segments@ == old(self).segments@.update(
                segment.id as int,
                (Segment {
                    length: old(self).measured(segment.id as int),
                    ..old(self).segments@[segment.id as int]
                }),
            ),
    {
        proof {
            assert(old(self).wired(segment.id as int));
        }
        let path = self.segments.get(&segment);
        let from = self.nodes.get(&path.from).position;
        let to = self.nodes.get(&path.to).position;
        let length = path.geometry.length(from, to);
        self.segments.get_mut(&segment).length = length;
        proof {
            assert(self.segments@ =~= old(self).segments@.update(
                segment.id as int,
                (Segment {
                    length: old(self).measured(segment.id as int),
                    ..old(self).segments@[segment.id as int]
                }),
            ));
            assert forall|x: int| 0 <= x < self.segments@.len() implies self.wired(x) by {
                assert(old(self).wired(x));
            }
        }
    }
}

/// Filters that agree on every entry of a list keep the same entries.
pub proof fn lemma_filter_same<A>(list: Seq<A>, p: spec_fn(A) -> bool, q: spec_fn(A) -> bool)
    requires
        forall|i: int| 0 <= i < list.len() ==> p(#[trigger] list[i]) == q(list[i]),
    ensures
        list.filter(p) == list.filter(q),
    decreases list.len(),
{
    reveal(Seq::filter);
    if list.len() > 0 {
        lemma_filter_same(list.drop_last(), p, q);
    }
}

/// A filter that every entry of a list passes keeps the list.
pub proof fn lemma_filter_all<A>(list: Seq<A>, p: spec_fn(A) -> bool)
    requires
        forall|i: int| 0 <= i < list.len() ==> p(#[trigger] list[i]),
    ensures
        list.filter(p) == list,
    decreases list.len(),
{
    reveal(Seq::filter);
    if list.len() > 0 {
        lemma_filter_all(list.drop_last(), p);
        assert(list.drop_last().push(list.last()) =~= list);
    }
}

/// To filter twice is to filter once by both.
pub proof fn lemma_filter_twice<A>(list: Seq<A>, p: spec_fn(A) -> bool, q: spec_fn(A) -> bool)
    ensures
        list.filter(p).filter(q) == list.filter(|x: A| p(x) && q(x)),
    decreases list.len(),
{
    reveal(Seq::filter);
    if list.len() > 0 {
        let rest = list.drop_last();
        let last = list.last();
        lemma_filter_twice(rest, p, q);
        if p(last) {
            let kept = rest.filter(p);
            assert(kept.push(last).drop_last() =~= kept);
            assert(kept.push(last).last() == last);
        }
    }
}

impl Node {
    /// The node as `o` was, but for what it has lost: the segment from its
    /// outgoing list where it has lost it as a start, from its incoming list
    /// where it has lost it as an end, and with either its part as a place
    /// to appear or leave at.
    pub open spec fn left_behind(
        &self,
        o: &Node,
        lost_start: bool,
        lost_end: bool,
        segment: Id<Segment>,
    ) -> bool {
        &&& self.position == o.position
        &&& self.yield_resolver == o.yield_resolver
        &&& self.outgoing@ == if lost_start {
            without_spec(o.outgoing@, segment)
        } else {
            o.outgoing@
        }
        &&& self.incoming@ == if lost_end {
            without_spec(o.incoming@, segment)
        } else {
            o.incoming@
        }
        &&& self.is_spawn == (o.is_spawn && !lost_start && !lost_end)
        &&& self.is_despawn == (o.is_despawn && !lost_start && !lost_end)
    }

    /// The node as it was, but that it may have lost entries of its lists
    /// and its part as a place to appear or leave at.
    pub open spec fn shrunk_from(&self, o: &Node) -> bool {
        &&& self.position == o.position
        &&& self.yield_resolver == o.yield_resolver
        &&& self.incoming@.len() <= o.incoming@.len()
        &&& self.outgoing@.len() <= o.outgoing@.len()
    }
}

impl Road {
    /// Whether segment `s` is as `shift` asks: where an end was to be moved,
    /// it is a node of its own at the place recorded, beyond the first
    /// `base` nodes; where it was to stay, it is the end that `was` had; and
    /// the length is what the shape and the ends give.
    pub open spec fn in_lane(&self, s: int, shift: LaneShift, was: Segment, base: int) -> bool {
        let now = self.segments@[s];
        let from = self.nodes@[now.from.id as int];
        let to = self.nodes@[now.to.id as int];
        &&& now.speed_limit == was.speed_limit
        &&& now.geometry == was.geometry
        &&& now.turn_type == was.turn_type
        &&& now.length == self.measured(s)
        &&& now.from.id < self.nodes@.len()
        &&& now.to.id < self.nodes@.len()
        &&& if shift.from_is_edge {
            now.from == was.from
        } else {
            &&& now.from.id >= base
            &&& from.position == shift.from_position
            &&& from.is_spawn == shift.from_is_spawn
            &&& !from.is_despawn
            &&& from.outgoing@ == seq![shift.segment]
            &&& from.incoming@.len() == 0
        }
        &&& if shift.to_is_edge {
            now.to == was.to
        } else {
            &&& now.to.id >= base
            &&& to.position == shift.to_position
            &&& !to.is_spawn
            &&& to.is_despawn == shift.to_is_despawn
            &&& to.incoming@ == seq![shift.segment]
            &&& to.outgoing@.len() == 0
        }
    }

    /// The state after one segment was moved into its lane.
    pub open spec fn lane_shifted(&self, before: &Road, shift: LaneShift) -> bool {
        let s = shift.segment.id as int;
        let base = before.nodes@.len() as int;
        &&& self.intersections@ == before.intersections@
        &&& self.segments@.len() == before.segments@.len()
        &&& self.nodes@.len() >= base
        &&& forall|m: int|
            0 <= m < base ==> {
                &&& (#[trigger] self.nodes@[m]).shrunk_from(&before.nodes@[m])
                &&& m != before.segments@[s].from.id && m != before.segments@[s].to.id
                    ==> self.nodes@[m].same_as(&before.nodes@[m])
                &&& self.nodes@[m].left_behind(
                    &before.nodes@[m],
                    !shift.from_is_edge && m == before.segments@[s].from.id,
                    !shift.to_is_edge && m == before.segments@[s].to.id,
                    shift.segment,
                )
            }
        &&& forall|x: int|
            0 <= x < self.segments@.len() && x != s ==> self.segments@[x] == before.segments@[x]
        &&& self.in_lane(s, shift, before.segments@[s], base)
    }

    /// Moves one segment into its lane: each end that does not stand on the
    /// rim of an intersection becomes a node of its own, at the place
    /// recorded, and the length is measured anew.
    #[verifier::rlimit(40)]
    pub fn shift_lane(&mut self, shift: &LaneShift)
        requires
            old(self).wf(),
            shift.segment.id < old(self).segments@.len(),
        ensures
            final(self).wf(),
            final(self).lane_shifted(old(self), *shift),
    {
        let ghost s = shift.segment.id as int;
        let ghost base = self.nodes@.len() as int;
        proof {
            assert(old(self).wired(s));
        }
        if !shift.from_is_edge {
            self.move_start(shift.segment, shift.from_position, shift.from_is_spawn);
            proof {
                lemma_without(
                    old(self).nodes@[old(self).segments@[s].from.id as int].outgoing@,
                    shift.segment,
                );
            }
        }
        let ghost s1 = *self;
        proof {
            assert(s1.wired(s));
            assert forall|m: int| 0 <= m < base implies {
                &&& (#[trigger] s1.nodes@[m]).shrunk_from(&old(self).nodes@[m])
                &&& m != old(self).segments@[s].from.id ==> s1.nodes@[m].same_as(
                    &old(self).nodes@[m],
                )
            } by {}
        }
        if !shift.to_is_edge {
            self.move_end(shift.segment, shift.to_position, shift.to_is_despawn);
            proof {
                lemma_without(
                    s1.nodes@[s1.segments@[s].to.id as int].incoming@,
                    shift.segment,
                );
            }
        }
        let ghost s2 = *self;
        proof {
            assert(s2.wired(s));
            assert forall|m: int| 0 <= m < s1.nodes@.len() implies {
                &&& (#[trigger] s2.nodes@[m]).shrunk_from(&s1.nodes@[m])
                &&& m != s1.segments@[s].to.id ==> s2.nodes@[m].same_as(&s1.nodes@[m])
            } by {}
        }
        self.refresh_length(shift.segment);
        proof {
            assert forall|m: int| 0 <= m < base implies {
                &&& (#[trigger] self.nodes@[m]).shrunk_from(&old(self).nodes@[m])
                &&& m != old(self).segments@[s].from.id && m != old(self).segments@[s].to.id
                    ==> self.nodes@[m].same_as(&old(self).nodes@[m])
                &&& self.nodes@[m].left_behind(
                    &old(self).nodes@[m],
                    !shift.from_is_edge && m == old(self).segments@[s].from.id,
                    !shift.to_is_edge && m == old(self).segments@[s].to.id,
                    shift.segment,
                )
            } by {
                assert(s1.nodes@[m].shrunk_from(&old(self).nodes@[m]));
                assert(s2.nodes@[m].shrunk_from(&s1.nodes@[m]));
                assert(s1.nodes@[m].left_behind(
                    &old(self).nodes@[m],
                    !shift.from_is_edge && m == old(self).segments@[s].from.id,
                    false,
                    shift.segment,
                ));
                assert(s2.nodes@[m].left_behind(
                    &s1.nodes@[m],
                    false,
                    !shift.to_is_edge && m == old(self).segments@[s].to.id,
                    shift.segment,
                ));
            }
            assert(self.in_lane(s, *shift, old(self).segments@[s], base));
        }
    }
}

impl Road {
    /// The straight segments are listed in strictly ascending order, each of
    /// them is one, and none is left out.
    pub proof fn lemma_straights(&self, k: int)
        requires
            0 <= k <= self.segments@.len(),
        ensures
            forall|i: int|
                0 <= i < self.straights_upto(k).len() ==> 0 <= (
                #[trigger] self.straights_upto(k)[i]) < k && self.is_straight(
                    self.straights_upto(k)[i],
                ),
            forall|i: int, j: int|
                0 <= i < j < self.straights_upto(k).len() ==> self.straights_upto(k)[i]
                    < self.straights_upto(k)[j],
            forall|s: int|
                0 <= s < k && self.is_straight(s) ==> self.straights_upto(k).contains(s),
        decreases k,
    {
        if k > 0 {
            self.lemma_straights(k - 1);
            let prev = self.straights_upto(k - 1);
            let cur = self.straights_upto(k);
            assert forall|s: int| 0 <= s < k && self.is_straight(s) implies cur.contains(s) by {
                if s < k - 1 {
                    let i = choose|i: int| 0 <= i < prev.len() && prev[i] == s;
                    assert(cur[i] == s);
                } else {
                    assert(cur[prev.len() as int] == s);
                }
            }
        }
    }

    /// Whether segment `s`, with an index below `bound`, is taken off the
    /// outgoing list of node `m`: it is straight, it starts at `m`, and `m`
    /// does not stand on the rim of an intersection.
    pub open spec fn taken_from(&self, s: int, m: int, bound: int) -> bool {
        &&& 0 <= s < bound
        &&& s < self.segments@.len()
        &&& self.is_straight(s)
        &&& self.segments@[s].from.id == m
        &&& !self.on_rim(m)
    }

    /// Whether segment `s`, with an index below `bound`, is taken off the
    /// incoming list of node `m`.
    pub open spec fn taken_to(&self, s: int, m: int, bound: int) -> bool {
        &&& 0 <= s < bound
        &&& s < self.segments@.len()
        &&& self.is_straight(s)
        &&& self.segments@[s].to.id == m
        &&& !self.on_rim(m)
    }

    /// Whether a segment with an index below `bound` is taken off a list of
    /// node `m`.
    pub open spec fn abandoned(&self, m: int, bound: int) -> bool {
        ||| exists|s: int| #[trigger] self.taken_from(s, m, bound)
        ||| exists|s: int| #[trigger] self.taken_to(s, m, bound)
    }

    /// Whether `now` is node `m` after the straight segments with an index
    /// below `bound` were moved into their lanes: it lists the segments it
    /// listed but for those taken off, and where one was taken off it is no
    /// place to appear or leave at any more.
    pub open spec fn passed_by(&self, now: &Node, m: int, bound: int) -> bool {
        let was = self.nodes@[m];
        &&& now.position == was.position
        &&& now.yield_resolver == was.yield_resolver
        &&& now.outgoing@ == was.outgoing@.filter(
            |id: Id<Segment>| !self.taken_from(id.id as int, m, bound),
        )
        &&& now.incoming@ == was.incoming@.filter(
            |id: Id<Segment>| !self.taken_to(id.id as int, m, bound),
        )
        &&& now.is_spawn == (was.is_spawn && !self.abandoned(m, bound))
        &&& now.is_despawn == (was.is_despawn && !self.abandoned(m, bound))
    }

    /// The index below which the straight segments are among the first `k`
    /// of them.
    pub open spec fn lane_bound(&self, k: int) -> int {
        let straights = self.straights_upto(self.segments@.len() as int);
        if 0 <= k < straights.len() {
            straights[k]
        } else if k < 0 {
            0
        } else {
            self.segments@.len() as int
        }
    }

    /// The state after the first `k` straight segments of `before` were
    /// moved into their lanes.
    pub open spec fn lanes_offset_upto(&self, before: &Road, k: int) -> bool {
        let base = before.nodes@.len() as int;
        let straights = before.straights_upto(before.segments@.len() as int);
        &&& self.intersections@ == before.intersections@
        &&& self.segments@.len() == before.segments@.len()
        &&& self.nodes@.len() >= base
        &&& forall|m: int|
            0 <= m < base ==> (#[trigger] self.nodes@[m]).shrunk_from(&before.nodes@[m])
                && before.passed_by(&self.nodes@[m], m, before.lane_bound(k))
        &&& forall|j: int|
            0 <= j < straights.len() ==> if j < k {
                self.in_lane(
                    #[trigger] straights[j],
                    before.lane_shift_spec(straights[j]),
                    before.segments@[straights[j]],
                    base,
                )
            } else {
                self.segments@[straights[j]] == before.segments@[straights[j]]
            }
        &&& forall|s: int|
            0 <= s < self.segments@.len() && !(before.segments@[s].geometry is Straight)
                ==> #[trigger] self.segments@[s] == before.segments@[s]
    }

    /// The state after every straight segment of `before` was moved into its
    /// lane: each of its ends that did not stand on the rim of an
    /// intersection is a node of its own, a lane's offset to the right of
    /// where the end was, and its length is the distance between its ends.
    /// The other segments and the intersections are as they were. No node
    /// that was there has moved; each lists what it listed but for the
    /// segments that were taken off it.
    pub open spec fn lanes_offset(&self, before: &Road) -> bool {
        let base = before.nodes@.len() as int;
        &&& self.intersections@ == before.intersections@
        &&& self.segments@.len() == before.segments@.len()
        &&& self.nodes@.len() >= base
        &&& forall|m: int|
            0 <= m < base ==> (#[trigger] self.nodes@[m]).shrunk_from(&before.nodes@[m])
                && before.passed_by(&self.nodes@[m], m, before.segments@.len() as int)
        &&& forall|s: int|
            0 <= s < self.segments@.len() ==> if before.segments@[s].geometry is Straight {
                self.in_lane(s, before.lane_shift_spec(s), before.segments@[s], base)
            } else {
                #[trigger] self.segments@[s] == before.segments@[s]
            }
    }

    /// Before the first straight segment was moved, every node is as it
    /// was.
    proof fn lemma_passed_by_none(&self, m: int)
        requires
            0 <= m < self.nodes@.len(),
        ensures
            self.passed_by(&self.nodes@[m], m, self.lane_bound(0)),
    {
        let straights = self.straights_upto(self.segments@.len() as int);
        self.lemma_straights(self.segments@.len() as int);
        let bound = self.lane_bound(0);
        assert forall|x: int| !self.taken_from(x, m, bound) && !self.taken_to(x, m, bound) by {
            if 0 <= x < bound && x < self.segments@.len() && self.is_straight(x) {
                assert(straights.contains(x));
                let i = choose|i: int| 0 <= i < straights.len() && straights[i] == x;
                if i > 0 {
                    assert(straights[0] < straights[i]);
                }
            }
        }
        let was = self.nodes@[m];
        lemma_filter_all(
            was.outgoing@,
            |id: Id<Segment>| !self.taken_from(id.id as int, m, bound),
        );
        lemma_filter_all(was.incoming@, |id: Id<Segment>| !self.taken_to(id.id as int, m, bound));
    }

    /// Between the straight segment at position `k` of their list and the
    /// next, no segment is straight.
    proof fn lemma_lane_bound(&self, k: int, x: int)
        requires
            0 <= k < self.straights_upto(self.segments@.len() as int).len(),
            self.lane_bound(k) <= x < self.lane_bound(k + 1),
            self.is_straight(x),
        ensures
            x == self.lane_bound(k),
            self.lane_bound(k) < self.lane_bound(k + 1) <= self.segments@.len(),
    {
        let straights = self.straights_upto(self.segments@.len() as int);
        self.lemma_straights(self.segments@.len() as int);
        assert(straights.contains(x));
        let i = choose|i: int| 0 <= i < straights.len() && straights[i] == x;
        if i < k {
            assert(straights[i] < straights[k]);
        }
        if i > k {
            assert(straights[k + 1] <= straights[i]) by {
                if k + 1 < i {
                    assert(straights[k + 1] < straights[i]);
                }
            }
        }
    }

    /// What one more segment moved into its lane leaves of a node that was
    /// there.
    proof fn lemma_passed_by_step(&self, mid: &Node, now: &Node, m: int, k: int)
        requires
            self.wf(),
            0 <= m < self.nodes@.len(),
            0 <= k < self.straights_upto(self.segments@.len() as int).len(),
            self.passed_by(mid, m, self.lane_bound(k)),
            now.left_behind(
                mid,
                !self.on_rim(self.segments@[self.lane_bound(k)].from.id as int) && m
                    == self.segments@[self.lane_bound(k)].from.id,
                !self.on_rim(self.segments@[self.lane_bound(k)].to.id as int) && m
                    == self.segments@[self.lane_bound(k)].to.id,
                Id::of(self.lane_bound(k) as usize),
            ),
        ensures
            self.passed_by(now, m, self.lane_bound(k + 1)),
    {
        let straights = self.straights_upto(self.segments@.len() as int);
        self.lemma_straights(self.segments@.len() as int);
        self.segments.lemma_len();
        let s = self.lane_bound(k);
        let low = s;
        let high = self.lane_bound(k + 1);
        let segment = Id::<Segment>::of(s as usize);
        assert(self.is_straight(s));
        assert(low < high <= self.segments@.len()) by {
            if k + 1 < straights.len() {
                assert(straights[k] < straights[k + 1]);
            }
        }
        let lost_start = !self.on_rim(self.segments@[s].from.id as int) && m
            == self.segments@[s].from.id;
        let lost_end = !self.on_rim(self.segments@[s].to.id as int) && m == self.segments@[s].to.id;
        assert forall|x: int| self.taken_from(x, m, high) == (self.taken_from(x, m, low) || (x == s
            && lost_start)) by {
            if low <= x < high && self.is_straight(x) {
                self.lemma_lane_bound(k, x);
            }
        }
        assert forall|x: int| self.taken_to(x, m, high) == (self.taken_to(x, m, low) || (x == s
            && lost_end)) by {
            if low <= x < high && self.is_straight(x) {
                self.lemma_lane_bound(k, x);
            }
        }
        let was = self.nodes@[m];
        let out_low = |id: Id<Segment>| !self.taken_from(id.id as int, m, low);
        let out_high = |id: Id<Segment>| !self.taken_from(id.id as int, m, high);
        let in_low = |id: Id<Segment>| !self.taken_to(id.id as int, m, low);
        let in_high = |id: Id<Segment>| !self.taken_to(id.id as int, m, high);
        let other = |id: Id<Segment>| id.id != segment.id;
        if lost_start {
            lemma_filter_twice(was.outgoing@, out_low, other);
            lemma_filter_same(
                was.outgoing@,
                |id: Id<Segment>| out_low(id) && other(id),
                out_high,
            );
        } else {
            lemma_filter_same(was.outgoing@, out_low, out_high);
        }
        if lost_end {
            lemma_filter_twice(was.incoming@, in_low, other);
            lemma_filter_same(was.incoming@, |id: Id<Segment>| in_low(id) && other(id), in_high);
        } else {
            lemma_filter_same(was.incoming@, in_low, in_high);
        }
        assert(self.abandoned(m, high) == (self.abandoned(m, low) || lost_start || lost_end)) by {
            if self.abandoned(m, low) {
                if exists|x: int| #[trigger] self.taken_from(x, m, low) {
                    let x = choose|x: int| #[trigger] self.taken_from(x, m, low);
                    assert(self.taken_from(x, m, high));
                } else {
                    let x = choose|x: int| #[trigger] self.taken_to(x, m, low);
                    assert(self.taken_to(x, m, high));
                }
            }
            if lost_start {
                assert(self.taken_from(s, m, high));
            }
            if lost_end {
                assert(self.taken_to(s, m, high));
            }
            if self.abandoned(m, high) {
                if exists|x: int| #[trigger] self.taken_from(x, m, high) {
                    let x = choose|x: int| #[trigger] self.taken_from(x, m, high);
                    assert(self.taken_from(x, m, low) || (x == s && lost_start));
                } else {
                    let x = choose|x: int| #[trigger] self.taken_to(x, m, high);
                    assert(self.taken_to(x, m, low) || (x == s && lost_end));
                }
            }
        }
    }

    /// One more segment moved keeps what was moved before.
    #[verifier::rlimit(40)]
    proof fn lemma_lane_step(&self, mid: &Road, before: &Road, k: int)
        requires
            before.wf(),
            mid.wf(),
            0 <= k < before.straights_upto(before.segments@.len() as int).len(),
            mid.lanes_offset_upto(before, k),
            self.lane_shifted(
                mid,
                before.lane_shift_spec(before.straights_upto(before.segments@.len() as int)[k]),
            ),
        ensures
            self.lanes_offset_upto(before, k + 1),
    {
        let base = before.nodes@.len() as int;
        let straights = before.straights_upto(before.segments@.len() as int);
        before.lemma_straights(before.segments@.len() as int);
        let s = straights[k];
        let shift = before.lane_shift_spec(s);
        before.segments.lemma_len();
        assert(shift.segment.id == s);
        assert(before.wired(s));
        assert(mid.segments@[s] == before.segments@[s]);
        assert forall|m: int| 0 <= m < base implies (#[trigger] self.nodes@[m]).shrunk_from(
            &before.nodes@[m],
        ) && before.passed_by(&self.nodes@[m], m, before.lane_bound(k + 1)) by {
            assert(mid.nodes@[m].shrunk_from(&before.nodes@[m]));
            assert(self.nodes@[m].shrunk_from(&mid.nodes@[m]));
            before.lemma_passed_by_step(&mid.nodes@[m], &self.nodes@[m], m, k);
        }
        assert forall|j: int| 0 <= j < straights.len() implies if j < k + 1 {
            self.in_lane(
                #[trigger] straights[j],
                before.lane_shift_spec(straights[j]),
                before.segments@[straights[j]],
                base,
            )
        } else {
            self.segments@[straights[j]] == before.segments@[straights[j]]
        } by {
            let x = straights[j];
            if j < k {
                assert(x != s);
                assert(mid.in_lane(x, before.lane_shift_spec(x), before.segments@[x], base));
                let now = mid.segments@[x];
                assert(self.segments@[x] == now);
                let f = now.from.id as int;
                let t = now.to.id as int;
                assert(self.nodes@[f].shrunk_from(&mid.nodes@[f]));
                assert(self.nodes@[t].shrunk_from(&mid.nodes@[t]));
                assert(f >= base ==> self.nodes@[f].same_as(&mid.nodes@[f]));
                assert(t >= base ==> self.nodes@[t].same_as(&mid.nodes@[t]));
            } else if j == k {
                let now = self.segments@[s];
                assert(self.in_lane(s, shift, mid.segments@[s], mid.nodes@.len() as int));
            } else {
                assert(x != s);
            }
        }
    }

    /// Moves every straight segment into its lane.
    pub fn offset_lanes(&mut self)
        requires
            old(self).wf(),
        ensures
            final(self).wf(),
            final(self).lanes_offset(old(self)),
    {
        let plan = self.plan_lanes();
        let ghost straights = self.straights_upto(self.segments@.len() as int);
        let mut k: usize = 0;
        proof {
            assert forall|m: int| 0 <= m < self.nodes@.len() implies self.passed_by(
                #[trigger] &self.nodes@[m],
                m,
                self.lane_bound(0),
            ) by {
                self.lemma_passed_by_none(m);
            }
        }
        while k < plan.len()
            invariant
                old(self).wf(),
                self.wf(),
                k <= plan@.len(),
                straights == old(self).straights_upto(old(self).segments@.len() as int),
                plan@.len() == straights.len(),
                forall|j: int|
                    0 <= j < plan@.len() ==> #[trigger] plan@[j] == old(self).lane_shift_spec(
                        straights[j],
                    ),
                forall|j: int|
                    0 <= j < plan@.len() ==> (#[trigger] plan@[j]).segment.id < old(
                        self,
                    ).segments@.len(),
                self.lanes_offset_upto(old(self), k as int),
            decreases plan@.len() - k,
        {
            let ghost mid = *self;
            self.shift_lane(&plan[k]);
            proof {
                self.lemma_lane_step(&mid, old(self), k as int);
            }
            k += 1;
        }
        proof {
            old(self).lemma_straights(old(self).segments@.len() as int);
            assert forall|s: int| 0 <= s < self.segments@.len() implies if old(
                self,
            ).segments@[s].geometry is Straight {
                self.in_lane(
                    s,
                    old(self).lane_shift_spec(s),
                    old(self).segments@[s],
                    old(self).nodes@.len() as int,
                )
            } else {
                #[trigger] self.segments@[s] == old(self).segments@[s]
            } by {
                if old(self).segments@[s].geometry is Straight {
                    assert(old(self).is_straight(s));
                    let j = choose|j: int| 0 <= j < straights.len() && straights[j] == s;
                    assert(straights[j] == s);
                }
            }
        }
    }
}

} // verus!

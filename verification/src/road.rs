//! The road network: nodes, the directed segments between them, and the
//! intersections that `finalize` expands.

use crate::arena::{Arena, Id};
use crate::driver::yielding::{TurnType, YieldResolver};
use crate::geometry::SegmentGeometry;
use crate::vector::Vec3;
use vstd::prelude::*;

verus! {

/// A point of the network.
#[derive(Debug, Hash)]
pub struct Node {
    pub position: Vec3,
    /// The segments that end here, in the order in which they were attached.
    pub incoming: Vec<Id<Segment>>,
    /// The segments that start here, in the order in which they were attached.
    pub outgoing: Vec<Id<Segment>>,
    /// Vehicles may appear here.
    pub is_spawn: bool,
    /// Vehicles may leave the network here.
    pub is_despawn: bool,
    /// Set on a node that was added as an intersection.
    pub yield_resolver: Option<YieldResolver>,
}

/// A directed edge of the network.
#[derive(Clone, Copy, Debug, Hash)]
pub struct Segment {
    pub from: Id<Node>,
    pub to: Id<Node>,
    pub speed_limit: i64,
    pub geometry: SegmentGeometry,
    pub turn_type: TurnType,
    /// The length of the path from `from` to `to`.
    pub length: i64,
}

/// The expansion of a node at which several roads meet.
#[derive(Debug, Hash)]
pub struct Intersection {
    pub position: Vec3,
    /// The segments inside the intersection.
    pub incoming: Vec<Id<Segment>>,
    /// The same segments: each one both enters and leaves the intersection.
    pub outgoing: Vec<Id<Segment>>,
    /// The nodes on the rim: first the entries, then the exits.
    pub edge_nodes: Vec<Id<Node>>,
    /// The pairs of inner segments whose paths cross, each pair in both orders.
    pub conflicts: Vec<(Id<Segment>, Id<Segment>)>,
    /// For each segment of `incoming`, at the same position, the heading of a
    /// vehicle that enters it.
    pub entry_directions: Vec<Vec3>,
    pub yield_resolver: YieldResolver,
    /// The next arrival order to hand out.
    pub arrival_counter: u64,
}

#[derive(Debug)]
pub struct Road {
    pub nodes: Arena<Node>,
    pub segments: Arena<Segment>,
    pub intersections: Arena<Intersection>,
}

/// Whether `list` names the item with index `s`.
pub open spec fn lists<T>(list: Seq<Id<T>>, s: int) -> bool {
    exists|k: int| 0 <= k < list.len() && (#[trigger] list[k]).id == s
}

/// Whether every index in `list` is below `bound`.
pub open spec fn ids_below<T>(list: Seq<Id<T>>, bound: int) -> bool {
    forall|k: int| 0 <= k < list.len() ==> (#[trigger] list[k]).id < bound
}

/// A list that grew by one entry names that entry and all it named before.
pub proof fn lemma_lists_push<T>(list: Seq<Id<T>>, x: Id<T>)
    ensures
        lists(list.push(x), x.id as int),
        forall|s: int| lists(list, s) ==> lists(list.push(x), s),
{
    assert(list.push(x)[list.len() as int].id == x.id);
    assert forall|s: int| lists(list, s) implies lists(list.push(x), s) by {
        let k = choose|k: int| 0 <= k < list.len() && (#[trigger] list[k]).id == s;
        assert(list.push(x)[k].id == s);
    }
}

/// The first position at which `list` names item `s`, if it names it.
pub open spec fn position_spec<T>(list: Seq<Id<T>>, s: int, k: int) -> Option<int>
    decreases list.len() - k,
{
    if k < 0 || k >= list.len() {
        None
    } else if list[k].id == s {
        Some(k)
    } else {
        position_spec(list, s, k + 1)
    }
}

/// A list names an item exactly if the item has a first position in it.
pub proof fn lemma_position<T>(list: Seq<Id<T>>, s: int, k: int)
    requires
        0 <= k <= list.len(),
    ensures
        position_spec(list, s, k) is Some <==> exists|j: int|
            k <= j < list.len() && (#[trigger] list[j]).id == s,
        position_spec(list, s, k) matches Some(p) ==> k <= p < list.len() && list[p].id == s,
    decreases list.len() - k,
{
    if k < list.len() {
        lemma_position(list, s, k + 1);
        if list[k].id != s {
            if exists|j: int| k <= j < list.len() && (#[trigger] list[j]).id == s {
                let j = choose|j: int| k <= j < list.len() && (#[trigger] list[j]).id == s;
                assert(k + 1 <= j);
            }
        }
    }
}

/// The first position at which `list` names `item`.
pub fn position_of<T>(list: &Vec<Id<T>>, item: Id<T>) -> (r: Option<usize>)
    ensures
        r is Some <==> lists(list@, item.id as int),
        r matches Some(p) ==> position_spec(list@, item.id as int, 0) == Some(p as int) && p
            < list@.len() && list@[p as int].id == item.id,
        r is None ==> position_spec(list@, item.id as int, 0) is None,
{
    let mut k: usize = 0;
    proof {
        lemma_position(list@, item.id as int, 0);
    }
    while k < list.len()
        invariant
            k <= list@.len(),
            position_spec(list@, item.id as int, 0) == position_spec(list@, item.id as int, k as int),
        decreases list@.len() - k,
    {
        if list[k].id == item.id {
            return Some(k);
        }
        k += 1;
    }
    None
}

/// A copy of `list`.
pub fn copy_ids<T>(list: &Vec<Id<T>>) -> (r: Vec<Id<T>>)
    ensures
        r@ == list@,
{
    let mut out: Vec<Id<T>> = Vec::new();
    let mut i: usize = 0;
    while i < list.len()
        invariant
            i <= list@.len(),
            out@ == list@.take(i as int),
        decreases list@.len() - i,
    {
        out.push(list[i]);
        proof {
            assert(list@.take(i + 1) =~= list@.take(i as int).push(list@[i as int]));
        }
        i += 1;
    }
    proof {
        assert(list@.take(list@.len() as int) =~= list@);
    }
    out
}

/// `first` followed by `second`.
pub fn joined<T>(first: &Vec<Id<T>>, second: &Vec<Id<T>>) -> (r: Vec<Id<T>>)
    ensures
        r@ == first@ + second@,
{
    let mut out = copy_ids(first);
    let mut i: usize = 0;
    while i < second.len()
        invariant
            i <= second@.len(),
            out@ == first@ + second@.take(i as int),
        decreases second@.len() - i,
    {
        out.push(second[i]);
        proof {
            assert(second@.take(i + 1) =~= second@.take(i as int).push(second@[i as int]));
            assert(first@ + second@.take(i + 1) =~= (first@ + second@.take(i as int)).push(
                second@[i as int],
            ));
        }
        i += 1;
    }
    proof {
        assert(second@.take(second@.len() as int) =~= second@);
    }
    out
}

impl Node {
    pub open spec fn wf(&self, segment_count: int) -> bool {
        &&& ids_below(self.incoming@, segment_count)
        &&& ids_below(self.outgoing@, segment_count)
    }

    /// Equal but for the two lists of segments.
    pub open spec fn same_point(&self, o: &Node) -> bool {
        &&& self.position == o.position
        &&& self.is_spawn == o.is_spawn
        &&& self.is_despawn == o.is_despawn
        &&& self.yield_resolver == o.yield_resolver
    }

    pub open spec fn same_as(&self, o: &Node) -> bool {
        &&& self.same_point(o)
        &&& self.incoming@ == o.incoming@
        &&& self.outgoing@ == o.outgoing@
    }
}

impl Intersection {
    /// Whether the conflict table holds the pair `(a, b)`.
    pub open spec fn conflicting(&self, a: int, b: int) -> bool {
        exists|k: int|
            0 <= k < self.conflicts@.len() && (#[trigger] self.conflicts@[k]).0.id == a
                && self.conflicts@[k].1.id == b
    }

    /// Equal but for the table of conflicts and the counter of arrivals.
    pub open spec fn same_place(&self, o: &Intersection) -> bool {
        &&& self.position == o.position
        &&& self.incoming@ == o.incoming@
        &&& self.outgoing@ == o.outgoing@
        &&& self.edge_nodes@ == o.edge_nodes@
        &&& self.entry_directions@ == o.entry_directions@
        &&& self.yield_resolver == o.yield_resolver
    }

    /// The heading of a vehicle that enters path `s` of the intersection;
    /// `None` for a segment that is no path of it.
    pub open spec fn direction_of_spec(&self, s: int) -> Option<Vec3> {
        match position_spec(self.incoming@, s, 0) {
            Some(p) => if p < self.entry_directions@.len() {
                Some(self.entry_directions@[p])
            } else {
                None
            },
            None => None,
        }
    }

    pub fn direction_of(&self, segment: Id<Segment>) -> (r: Option<Vec3>)
        ensures
            r == self.direction_of_spec(segment.id as int),
    {
        match position_of(&self.incoming, segment) {
            Some(p) => if p < self.entry_directions.len() {
                Some(self.entry_directions[p])
            } else {
                None
            },
            None => None,
        }
    }

    /// Whether the table of conflicts holds the pair `(a, b)`.
    pub fn has_conflict(&self, a: Id<Segment>, b: Id<Segment>) -> (r: bool)
        ensures
            r == self.conflicting(a.id as int, b.id as int),
    {
        let mut k: usize = 0;
        while k < self.conflicts.len()
            invariant
                k <= self.conflicts@.len(),
                forall|j: int|
                    0 <= j < k ==> !((#[trigger] self.conflicts@[j]).0.id == a.id
                        && self.conflicts@[j].1.id == b.id),
            decreases self.conflicts@.len() - k,
        {
            if self.conflicts[k].0.id == a.id && self.conflicts[k].1.id == b.id {
                return true;
            }
            k += 1;
        }
        false
    }

    pub open spec fn wf(&self, node_count: int, segment_count: int) -> bool {
        &&& ids_below(self.incoming@, segment_count)
        &&& ids_below(self.outgoing@, segment_count)
        &&& ids_below(self.edge_nodes@, node_count)
        &&& self.entry_directions@.len() == self.incoming@.len()
        &&& forall|k: int|
            0 <= k < self.conflicts@.len() ==> {
                &&& (#[trigger] self.conflicts@[k]).0.id < segment_count
                &&& self.conflicts@[k].1.id < segment_count
                &&& self.conflicting(self.conflicts@[k].1.id as int, self.conflicts@[k].0.id as int)
            }
    }
}

impl Default for Road {
    fn default() -> (r: Road)
        ensures
            r.wf(),
            r.nodes@.len() == 0,
            r.segments@.len() == 0,
            r.intersections@.len() == 0,
    {
        Road::new()
    }
}

impl Road {
    /// Every index stored in the network is in range, every segment is listed
    /// as outgoing at the node it starts from and as incoming at the node it
    /// ends at, and every conflict table is symmetric.
    pub open spec fn wf(&self) -> bool {
        &&& forall|n: int|
            0 <= n < self.nodes@.len() ==> (#[trigger] self.nodes@[n]).wf(
                self.segments@.len() as int,
            )
        &&& forall|s: int| 0 <= s < self.segments@.len() ==> self.wired(s)
        &&& forall|i: int|
            0 <= i < self.intersections@.len() ==> (#[trigger] self.intersections@[i]).wf(
                self.nodes@.len() as int,
                self.segments@.len() as int,
            )
    }

    /// Whether node `n` is one at which several roads meet: more than one
    /// segment ends there and more than one starts there.
    pub open spec fn is_junction(&self, n: int) -> bool {
        self.nodes@[n].incoming@.len() > 1 && self.nodes@[n].outgoing@.len() > 1
    }

    /// The junctions among the first `k` nodes, in ascending order.
    pub open spec fn junctions_upto(&self, k: int) -> Seq<int>
        decreases k,
    {
        if k <= 0 {
            Seq::empty()
        } else if self.is_junction(k - 1) {
            self.junctions_upto(k - 1).push(k - 1)
        } else {
            self.junctions_upto(k - 1)
        }
    }

    /// All junctions of the network, in ascending order.
    pub open spec fn junctions(&self) -> Seq<int> {
        self.junctions_upto(self.nodes@.len() as int)
    }

    /// The junctions are listed in strictly ascending order, each of them is
    /// one, and none is left out.
    pub proof fn lemma_junctions(&self, k: int)
        requires
            0 <= k <= self.nodes@.len(),
        ensures
            forall|i: int|
                0 <= i < self.junctions_upto(k).len() ==> 0 <= (
                #[trigger] self.junctions_upto(k)[i]) < k && self.is_junction(
                    self.junctions_upto(k)[i],
                ),
            forall|i: int, j: int|
                0 <= i < j < self.junctions_upto(k).len() ==> self.junctions_upto(k)[i]
                    < self.junctions_upto(k)[j],
            forall|n: int|
                0 <= n < k && self.is_junction(n) ==> self.junctions_upto(k).contains(n),
        decreases k,
    {
        if k > 0 {
            self.lemma_junctions(k - 1);
            let prev = self.junctions_upto(k - 1);
            let cur = self.junctions_upto(k);
            assert forall|n: int| 0 <= n < k && self.is_junction(n) implies cur.contains(n) by {
                if n < k - 1 {
                    let i = choose|i: int| 0 <= i < prev.len() && prev[i] == n;
                    assert(cur[i] == n);
                } else {
                    assert(cur[prev.len() as int] == n);
                }
            }
        }
    }

    /// Segment `s` joins two nodes of the network and both of them list it.
    pub open spec fn wired(&self, s: int) -> bool {
        &&& 0 <= s < self.segments@.len()
        &&& self.segments@[s].from.id < self.nodes@.len()
        &&& self.segments@[s].to.id < self.nodes@.len()
        &&& lists(self.nodes@[self.segments@[s].from.id as int].outgoing@, s)
        &&& lists(self.nodes@[self.segments@[s].to.id as int].incoming@, s)
    }

    pub fn new() -> (r: Road)
        ensures
            r.wf(),
            r.nodes@.len() == 0,
            r.segments@.len() == 0,
            r.intersections@.len() == 0,
    {
        Road { nodes: Arena::new(), segments: Arena::new(), intersections: Arena::new() }
    }

    /// The state after a node without segments was appended.
    pub open spec fn added_node(
        &self,
        before: &Road,
        position: Vec3,
        is_spawn: bool,
        is_despawn: bool,
        yield_resolver: Option<YieldResolver>,
    ) -> bool {
        &&& self.segments@ == before.segments@
        &&& self.intersections@ == before.intersections@
        &&& self.nodes@.len() == before.nodes@.len() + 1
        &&& forall|n: int| 0 <= n < before.nodes@.len() ==> self.nodes@[n] == before.nodes@[n]
        &&& self.nodes@.last().position == position
        &&& self.nodes@.last().incoming@.len() == 0
        &&& self.nodes@.last().outgoing@.len() == 0
        &&& self.nodes@.last().is_spawn == is_spawn
        &&& self.nodes@.last().is_despawn == is_despawn
        &&& self.nodes@.last().yield_resolver == yield_resolver
    }

    fn push_node(
        &mut self,
        position: Vec3,
        is_spawn: bool,
        is_despawn: bool,
        yield_resolver: Option<YieldResolver>,
    ) -> (r: Id<Node>)
        ensures
            old(self).wf() ==> final(self).wf(),
            r.id == old(self).nodes@.len(),
            final(self).added_node(old(self), position, is_spawn, is_despawn, yield_resolver),
    {
        let id = self.nodes.allocate(
            Node {
                position,
                incoming: Vec::new(),
                outgoing: Vec::new(),
                is_spawn,
                is_despawn,
                yield_resolver,
            },
        );
        proof {
            if old(self).wf() {
                assert forall|s: int| 0 <= s < self.segments@.len() implies self.wired(s) by {
                    assert(old(self).wired(s));
                }
                assert forall|i: int| 0 <= i < self.intersections@.len() implies (
                #[trigger] self.intersections@[i]).wf(
                    self.nodes@.len() as int,
                    self.segments@.len() as int,
                ) by {
                    let x = old(self).intersections@[i];
                    assert(x.wf(old(self).nodes@.len() as int, old(self).segments@.len() as int));
                }
            }
        }
        id
    }

    /// The state after `segment` was appended under the index `id` and
    /// attached to its two ends.
    pub open spec fn attached(&self, before: &Road, segment: Segment, id: Id<Segment>) -> bool {
        &&& self.intersections@ == before.intersections@
        &&& self.segments@ == before.segments@.push(segment)
        &&& id.id == before.segments@.len()
        &&& self.nodes@.len() == before.nodes@.len()
        &&& forall|n: int|
            0 <= n < self.nodes@.len() ==> {
                &&& (#[trigger] self.nodes@[n]).same_point(&before.nodes@[n])
                &&& self.nodes@[n].outgoing@ == if n == segment.from.id {
                    before.nodes@[n].outgoing@.push(id)
                } else {
                    before.nodes@[n].outgoing@
                }
                &&& self.nodes@[n].incoming@ == if n == segment.to.id {
                    before.nodes@[n].incoming@.push(id)
                } else {
                    before.nodes@[n].incoming@
                }
            }
    }

    /// Appends `segment` and lists it at the node it starts from and at the
    /// node it ends at.
    pub fn attach(&mut self, segment: Segment) -> (r: Id<Segment>)
        requires
            segment.from.id < old(self).nodes@.len(),
            segment.to.id < old(self).nodes@.len(),
        ensures
            old(self).wf() ==> final(self).wf(),
            final(self).attached(old(self), segment, r),
    {
        let from = segment.from;
        let to = segment.to;
        let id = self.segments.allocate(segment);
        self.nodes.get_mut(&from).outgoing.push(id);
        self.nodes.get_mut(&to).incoming.push(id);
        proof {
            assert(self.attached(old(self), segment, id));
            if old(self).wf() {
                self.lemma_attached_wf(old(self), segment, id);
            }
        }
        id
    }

    proof fn lemma_attached_wf(&self, before: &Road, segment: Segment, id: Id<Segment>)
        requires
            before.wf(),
            self.attached(before, segment, id),
            segment.from.id < before.nodes@.len(),
            segment.to.id < before.nodes@.len(),
        ensures
            self.wf(),
    {
        let count = before.segments@.len() as int;
        assert forall|n: int| 0 <= n < self.nodes@.len() implies (#[trigger] self.nodes@[n]).wf(
            self.segments@.len() as int,
        ) by {
            assert(before.nodes@[n].wf(count));
        }
        assert forall|s: int| 0 <= s < self.segments@.len() implies self.wired(s) by {
            if s < count {
                assert(before.wired(s));
                let f = before.segments@[s].from.id as int;
                let t = before.segments@[s].to.id as int;
                let k = choose|k: int|
                    0 <= k < before.nodes@[f].outgoing@.len() && (
                    #[trigger] before.nodes@[f].outgoing@[k]).id == s;
                assert(self.nodes@[f].outgoing@[k].id == s);
                let j = choose|j: int|
                    0 <= j < before.nodes@[t].incoming@.len() && (
                    #[trigger] before.nodes@[t].incoming@[j]).id == s;
                assert(self.nodes@[t].incoming@[j].id == s);
            } else {
                let f = segment.from.id as int;
                let t = segment.to.id as int;
                assert(self.nodes@[f].outgoing@[before.nodes@[f].outgoing@.len() as int].id == s);
                assert(self.nodes@[t].incoming@[before.nodes@[t].incoming@.len() as int].id == s);
            }
        }
        assert forall|i: int| 0 <= i < self.intersections@.len() implies (
        #[trigger] self.intersections@[i]).wf(
            self.nodes@.len() as int,
            self.segments@.len() as int,
        ) by {
            assert(before.intersections@[i].wf(before.nodes@.len() as int, count));
        }
    }

    /// Adds a straight segment from `from` to `to`.
    pub fn add_segment(&mut self, from: Id<Node>, to: Id<Node>, speed_limit: i64) -> (r: Id<
        Segment,
    >)
        requires
            from.id < old(self).nodes@.len(),
            to.id < old(self).nodes@.len(),
        ensures
            old(self).wf() ==> final(self).wf(),
            final(self).attached(
                old(self),
                Road::straight_between(old(self), from, to, speed_limit),
                r,
            ),
    {
        let from_pos = self.nodes.get(&from).position;
        let to_pos = self.nodes.get(&to).position;
        let geometry = SegmentGeometry::Straight;
        let length = geometry.length(from_pos, to_pos);
        self.attach(
            Segment { from, to, speed_limit, geometry, turn_type: TurnType::Straight, length },
        )
    }

    /// The straight segment that joins two nodes of `road`.
    pub open spec fn straight_between(
        road: &Road,
        from: Id<Node>,
        to: Id<Node>,
        speed_limit: i64,
    ) -> Segment {
        Segment {
            from,
            to,
            speed_limit,
            geometry: SegmentGeometry::Straight,
            turn_type: TurnType::Straight,
            length: road.nodes@[from.id as int].position.distance_spec(
                road.nodes@[to.id as int].position,
            ),
        }
    }

    /// Adds a road between `a` and `b`: one segment in each direction.
    pub fn add_bidirectional(&mut self, a: Id<Node>, b: Id<Node>, speed_limit: i64) -> (r: (
        Id<Segment>,
        Id<Segment>,
    ))
        requires
            a.id < old(self).nodes@.len(),
            b.id < old(self).nodes@.len(),
        ensures
            old(self).wf() ==> final(self).wf(),
            r.0.id == old(self).segments@.len(),
            r.1.id == old(self).segments@.len() + 1,
            final(self).segments@ == old(self).segments@.push(
                Road::straight_between(old(self), a, b, speed_limit),
            ).push(Road::straight_between(old(self), b, a, speed_limit)),
            final(self).intersections@ == old(self).intersections@,
            final(self).nodes@.len() == old(self).nodes@.len(),
            forall|n: int|
                0 <= n < final(self).nodes@.len() ==> {
                    &&& (#[trigger] final(self).nodes@[n]).same_point(&old(self).nodes@[n])
                    &&& final(self).nodes@[n].outgoing@ == old(self).nodes@[n].outgoing@ + (if n
                        == a.id {
                        seq![r.0]
                    } else {
                        seq![]
                    }) + (if n == b.id {
                        seq![r.1]
                    } else {
                        seq![]
                    })
                    &&& final(self).nodes@[n].incoming@ == old(self).nodes@[n].incoming@ + (if n
                        == b.id {
                        seq![r.0]
                    } else {
                        seq![]
                    }) + (if n == a.id {
                        seq![r.1]
                    } else {
                        seq![]
                    })
                },
    {
        let a_to_b = self.add_segment(a, b, speed_limit);
        let ghost mid = *self;
        let b_to_a = self.add_segment(b, a, speed_limit);
        proof {
            assert forall|n: int| 0 <= n < self.nodes@.len() implies {
                &&& (#[trigger] self.nodes@[n]).same_point(&old(self).nodes@[n])
                &&& self.nodes@[n].outgoing@ == old(self).nodes@[n].outgoing@ + (if n == a.id {
                    seq![a_to_b]
                } else {
                    seq![]
                }) + (if n == b.id {
                    seq![b_to_a]
                } else {
                    seq![]
                })
                &&& self.nodes@[n].incoming@ == old(self).nodes@[n].incoming@ + (if n == b.id {
                    seq![a_to_b]
                } else {
                    seq![]
                }) + (if n == a.id {
                    seq![b_to_a]
                } else {
                    seq![]
                })
            } by {
                assert(mid.nodes@[n].same_point(&old(self).nodes@[n]));
                assert(self.nodes@[n].outgoing@ =~= old(self).nodes@[n].outgoing@ + (if n
                    == a.id {
                    seq![a_to_b]
                } else {
                    seq![]
                }) + (if n == b.id {
                    seq![b_to_a]
                } else {
                    seq![]
                }));
                assert(self.nodes@[n].incoming@ =~= old(self).nodes@[n].incoming@ + (if n
                    == b.id {
                    seq![a_to_b]
                } else {
                    seq![]
                }) + (if n == a.id {
                    seq![b_to_a]
                } else {
                    seq![]
                }));
            }
        }
        (a_to_b, b_to_a)
    }

    /// Adds a plain junction.
    pub fn add_node(&mut self, position: Vec3) -> (r: Id<Node>)
        ensures
            old(self).wf() ==> final(self).wf(),
            r.id == old(self).nodes@.len(),
            final(self).added_node(old(self), position, false, false, None),
    {
        self.push_node(position, false, false, None)
    }

    /// Adds a node at which vehicles appear.
    pub fn add_spawn_node(&mut self, position: Vec3) -> (r: Id<Node>)
        ensures
            old(self).wf() ==> final(self).wf(),
            r.id == old(self).nodes@.len(),
            final(self).added_node(old(self), position, true, false, None),
    {
        self.push_node(position, true, false, None)
    }

    /// Adds a node at which vehicles leave.
    pub fn add_despawn_node(&mut self, position: Vec3) -> (r: Id<Node>)
        ensures
            old(self).wf() ==> final(self).wf(),
            r.id == old(self).nodes@.len(),
            final(self).added_node(old(self), position, false, true, None),
    {
        self.push_node(position, false, true, None)
    }

    /// Adds a node at the edge of the map, where vehicles appear and leave.
    pub fn add_edge_node(&mut self, position: Vec3) -> (r: Id<Node>)
        ensures
            old(self).wf() ==> final(self).wf(),
            r.id == old(self).nodes@.len(),
            final(self).added_node(old(self), position, true, true, None),
    {
        self.push_node(position, true, true, None)
    }

    /// Adds a node that `finalize` is to expand under the given rule.
    pub fn add_intersection_node(&mut self, position: Vec3, resolver: YieldResolver) -> (r: Id<
        Node,
    >)
        ensures
            old(self).wf() ==> final(self).wf(),
            r.id == old(self).nodes@.len(),
            final(self).added_node(old(self), position, false, false, Some(resolver)),
    {
        self.push_node(position, false, false, Some(resolver))
    }
}

} // verus!

//! What is recorded of each junction before the network is changed: where
//! its roads arrive and leave, and where the nodes on its rim are to stand.

use crate::arena::Id;
use crate::driver::yielding::YieldResolver;
use crate::fixed::{add_spec, fx_add, fx_neg, neg_spec};
use crate::road::{Node, Road, Segment};
use crate::trig::{atan2, atan2_spec, PI};
use crate::vector::Vec3;
use vstd::prelude::*;

verus! {

/// From the centre of a plain intersection to the nodes on its rim: 8 m.
pub const INTERSECTION_RADIUS: i64 = 8_000_000;

/// The radius of the circle of a roundabout: 8 m.
pub const ROUNDABOUT_RADIUS: i64 = 8_000_000;

/// From the circle of a roundabout to the nodes on its rim: 8 m.
pub const RAMP_LENGTH: i64 = 8_000_000;

/// From the middle of a road to the middle of either lane: 1.75 m.
pub const LANE_OFFSET: i64 = 1_750_000;

/// One road at a junction, arriving or leaving.
#[derive(Clone, Copy, Debug)]
pub struct Approach {
    /// The segment that arrives or leaves.
    pub segment: Id<Segment>,
    /// Where the node on the rim is to stand.
    pub position: Vec3,
    /// The heading of a vehicle on the segment, into or out of the junction.
    pub direction: Vec3,
    /// The angle at which the road is seen from the centre, in `(-π, π]`.
    pub angle: i64,
}

/// A junction as it stood before the expansion.
#[derive(Debug)]
pub struct Junction {
    pub node: Id<Node>,
    pub position: Vec3,
    pub resolver: YieldResolver,
    pub entries: Vec<Approach>,
    pub exits: Vec<Approach>,
}

/// What a record of a junction holds.
pub struct JunctionView {
    pub node: int,
    pub position: Vec3,
    pub resolver: YieldResolver,
    pub entries: Seq<Approach>,
    pub exits: Seq<Approach>,
}

impl View for Junction {
    type V = JunctionView;

    open spec fn view(&self) -> JunctionView {
        JunctionView {
            node: self.node.id as int,
            position: self.position,
            resolver: self.resolver,
            entries: self.entries@,
            exits: self.exits@,
        }
    }
}

/// The rule of a junction: the one its node was given, else right of way.
pub open spec fn resolver_spec(given: Option<YieldResolver>) -> YieldResolver {
    match given {
        Some(r) => r,
        None => YieldResolver::RightOfWay,
    }
}

/// How far from the centre the nodes on the rim stand.
pub open spec fn edge_distance_spec(resolver: YieldResolver) -> i64 {
    match resolver {
        YieldResolver::RightOfWay => INTERSECTION_RADIUS,
        YieldResolver::Roundabout => add_spec(ROUNDABOUT_RADIUS, RAMP_LENGTH),
    }
}

/// The angle of the direction `outward`, with `-π` turned into `π`.
pub open spec fn arm_angle_spec(outward: Vec3) -> i64 {
    let a = atan2_spec(outward.y, outward.x);
    if a == -PI {
        PI
    } else {
        a
    }
}

/// The node on the rim for a road along `direction`: `distance` from the
/// centre, against the direction for an arriving road and along it for a
/// leaving one, and a lane's offset to the right of the direction.
pub open spec fn rim_position_spec(center: Vec3, direction: Vec3, along: i64) -> Vec3 {
    center.plus_spec(direction.scaled_spec(along)).plus_spec(
        direction.right_spec().scaled_spec(LANE_OFFSET),
    )
}

/// The road that arrives at `center` from a node at `from`.
pub open spec fn entry_spec(
    segment: Id<Segment>,
    center: Vec3,
    from: Vec3,
    distance: i64,
) -> Approach {
    let direction = center.minus_spec(from).normalized_spec();
    Approach {
        segment,
        position: rim_position_spec(center, direction, neg_spec(distance)),
        direction,
        angle: arm_angle_spec(Vec3::zero_spec().minus_spec(direction)),
    }
}

/// The road that leaves `center` for a node at `to`.
pub open spec fn exit_spec(segment: Id<Segment>, center: Vec3, to: Vec3, distance: i64) -> Approach {
    let direction = to.minus_spec(center).normalized_spec();
    Approach {
        segment,
        position: rim_position_spec(center, direction, distance),
        direction,
        angle: arm_angle_spec(direction),
    }
}

pub fn resolver_of(given: Option<YieldResolver>) -> (r: YieldResolver)
    ensures
        r == resolver_spec(given),
{
    match given {
        Some(r) => r,
        None => YieldResolver::RightOfWay,
    }
}

pub fn edge_distance(resolver: YieldResolver) -> (r: i64)
    ensures
        r == edge_distance_spec(resolver),
{
    match resolver {
        YieldResolver::RightOfWay => INTERSECTION_RADIUS,
        YieldResolver::Roundabout => fx_add(ROUNDABOUT_RADIUS, RAMP_LENGTH),
    }
}

pub fn arm_angle(outward: Vec3) -> (r: i64)
    ensures
        r == arm_angle_spec(outward),
        -PI < r <= PI,
{
    let a = atan2(outward.y, outward.x);
    if a == -PI {
        PI
    } else {
        a
    }
}

pub fn rim_position(center: Vec3, direction: Vec3, along: i64) -> (r: Vec3)
    ensures
        r == rim_position_spec(center, direction, along),
{
    center.plus(direction.scaled(along)).plus(direction.right().scaled(LANE_OFFSET))
}

pub fn entry(segment: Id<Segment>, center: Vec3, from: Vec3, distance: i64) -> (r: Approach)
    ensures
        r == entry_spec(segment, center, from, distance),
{
    let direction = center.minus(from).normalized();
    Approach {
        segment,
        position: rim_position(center, direction, fx_neg(distance)),
        direction,
        angle: arm_angle(Vec3::zero().minus(direction)),
    }
}

pub fn exit(segment: Id<Segment>, center: Vec3, to: Vec3, distance: i64) -> (r: Approach)
    ensures
        r == exit_spec(segment, center, to, distance),
{
    let direction = to.minus(center).normalized();
    Approach {
        segment,
        position: rim_position(center, direction, distance),
        direction,
        angle: arm_angle(direction),
    }
}

impl Road {
    /// The roads that arrive at node `n`, in the order of its list.
    pub open spec fn entries_spec(&self, n: int) -> Seq<Approach> {
        let node = self.nodes@[n];
        Seq::new(
            node.incoming@.len(),
            |i: int|
                entry_spec(
                    node.incoming@[i],
                    node.position,
                    self.nodes@[self.segments@[node.incoming@[i].id as int].from.id as int].position,
                    edge_distance_spec(resolver_spec(node.yield_resolver)),
                ),
        )
    }

    /// The roads that leave node `n`, in the order of its list.
    pub open spec fn exits_spec(&self, n: int) -> Seq<Approach> {
        let node = self.nodes@[n];
        Seq::new(
            node.outgoing@.len(),
            |i: int|
                exit_spec(
                    node.outgoing@[i],
                    node.position,
                    self.nodes@[self.segments@[node.outgoing@[i].id as int].to.id as int].position,
                    edge_distance_spec(resolver_spec(node.yield_resolver)),
                ),
        )
    }

    /// The record of node `n` as it stands.
    pub open spec fn junction_spec(&self, n: int) -> JunctionView {
        JunctionView {
            node: n,
            position: self.nodes@[n].position,
            resolver: resolver_spec(self.nodes@[n].yield_resolver),
            entries: self.entries_spec(n),
            exits: self.exits_spec(n),
        }
    }

    /// Whether `junction` records node `n` as it stands.
    pub open spec fn records(&self, junction: &Junction, n: int) -> bool {
        junction@ == self.junction_spec(n)
    }

    /// Records node `node`.
    pub fn survey(&self, node: Id<Node>) -> (r: Junction)
        requires
            self.wf(),
            node.id < self.nodes@.len(),
        ensures
            self.records(&r, node.id as int),
    {
        let here = self.nodes.get(&node);
        let resolver = resolver_of(here.yield_resolver);
        let distance = edge_distance(resolver);
        let ghost n = node.id as int;
        let mut entries: Vec<Approach> = Vec::new();
        let mut i: usize = 0;
        while i < here.incoming.len()
            invariant
                self.wf(),
                n == node.id,
                0 <= n < self.nodes@.len(),
                *here == self.nodes@[n],
                distance == edge_distance_spec(resolver_spec(here.yield_resolver)),
                i <= here.incoming@.len(),
                entries@.len() == i,
                forall|k: int| 0 <= k < i ==> entries@[k] == self.entries_spec(n)[k],
            decreases here.incoming@.len() - i,
        {
            assert(self.nodes@[n].wf(self.segments@.len() as int));
            let id = here.incoming[i];
            assert(self.wired(id.id as int));
            let from = self.nodes.get(&self.segments.get(&id).from).position;
            entries.push(entry(id, here.position, from, distance));
            i += 1;
        }
        let mut exits: Vec<Approach> = Vec::new();
        let mut j: usize = 0;
        while j < here.outgoing.len()
            invariant
                self.wf(),
                n == node.id,
                0 <= n < self.nodes@.len(),
                *here == self.nodes@[n],
                distance == edge_distance_spec(resolver_spec(here.yield_resolver)),
                j <= here.outgoing@.len(),
                exits@.len() == j,
                forall|k: int| 0 <= k < j ==> exits@[k] == self.exits_spec(n)[k],
            decreases here.outgoing@.len() - j,
        {
            assert(self.nodes@[n].wf(self.segments@.len() as int));
            let id = here.outgoing[j];
            assert(self.wired(id.id as int));
            let to = self.nodes.get(&self.segments.get(&id).to).position;
            exits.push(exit(id, here.position, to, distance));
            j += 1;
        }
        proof {
            assert(entries@ =~= self.entries_spec(n));
            assert(exits@ =~= self.exits_spec(n));
        }
        Junction { node, position: here.position, resolver, entries, exits }
    }

    /// Records every junction of the network, in ascending order of the nodes.
    pub fn collect_junctions(&self) -> (r: Vec<Junction>)
        requires
            self.wf(),
        ensures
            r@.len() == self.junctions().len(),
            forall|k: int| 0 <= k < r@.len() ==> self.records(#[trigger] &r@[k], self.junctions()[k]),
    {
        let mut out: Vec<Junction> = Vec::new();
        let mut n: usize = 0;
        while n < self.nodes.len()
            invariant
                self.wf(),
                n <= self.nodes@.len(),
                out@.len() == self.junctions_upto(n as int).len(),
                forall|k: int|
                    0 <= k < out@.len() ==> self.records(
                        #[trigger] &out@[k],
                        self.junctions_upto(n as int)[k],
                    ),
            decreases self.nodes@.len() - n,
        {
            let id = Id::new(n);
            let node = self.nodes.get(&id);
            if node.incoming.len() > 1 && node.outgoing.len() > 1 {
                let junction = self.survey(id);
                out.push(junction);
            }
            n += 1;
        }
        out
    }
}

} // verus!

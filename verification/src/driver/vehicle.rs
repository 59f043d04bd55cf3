//! Vehicles: what one is, how it comes into the network, moves along its
//! route and leaves.

use crate::arena::Id;
use crate::driver::blinker::Blinker;
use crate::driver::gap::{lemma_orderly_from, lemma_orderly_kept_and_grown, GapAcceptance};
use crate::driver::idm::Idm;
use crate::driver::pathfinding::next_segment_toward;
use crate::driver::yielding::NO_ARRIVAL;
use crate::fixed::{
    add_spec, div_spec, fx_add, fx_div, fx_mul, fx_sub, lemma_div_bounds, lemma_mul_nonnegative,
    mul_spec, sub_spec, ONE,
};
use crate::random::{random_index, random_unit};
use crate::road::{ids_below, Node, Road, Segment};
use vstd::prelude::*;

verus! {

/// The length of a typical car: 4.5 m.
pub const DEFAULT_CAR_LENGTH: i64 = 4_500_000;

/// The width of a typical car: 1.8 m.
pub const DEFAULT_CAR_WIDTH: i64 = 1_800_000;

/// Marks the vehicle that the player drives: its speed is set from outside.
#[derive(Clone, Copy, Debug, PartialEq, Eq, Structural)]
pub struct PlayerControlled;

#[derive(Debug)]
pub struct Vehicle {
    pub speed: i64,
    /// The segment the vehicle is on.
    pub segment: Id<Segment>,
    /// How far along the segment the vehicle is, from `0` to `ONE`.
    pub progress: i64,
    pub destination: Id<Node>,
    /// The way to the destination, beginning with the segment the vehicle
    /// is on.
    pub route: Vec<Id<Segment>>,
    pub idm: Idm,
    pub gap: GapAcceptance,
    /// From front to back.
    pub length: i64,
    /// From side to side.
    pub width: i64,
    pub blinker: Blinker,
    pub braking: bool,
    pub player: Option<PlayerControlled>,
}

/// The chance that goes into a new vehicle: the aggression of its driver,
/// and the draws that move its parameters.
#[derive(Clone, Copy, Debug)]
pub struct Draws {
    pub aggression: i64,
    pub idm: (i64, i64, i64, i64),
    pub gap: i64,
}

impl Draws {
    /// Whether each draw is a fraction in `[0, 1)`.
    pub open spec fn wf(&self) -> bool {
        &&& 0 <= self.aggression < ONE
        &&& 0 <= self.idm.0 < ONE
        &&& 0 <= self.idm.1 < ONE
        &&& 0 <= self.idm.2 < ONE
        &&& 0 <= self.idm.3 < ONE
        &&& 0 <= self.gap < ONE
    }

    /// Draws from the generator of the thread.
    pub fn random() -> (r: Draws)
        ensures
            r.wf(),
    {
        Draws {
            aggression: random_unit(),
            idm: (random_unit(), random_unit(), random_unit(), random_unit()),
            gap: random_unit(),
        }
    }
}

impl Vehicle {
    /// Whether the vehicle is on a segment of `road`, bound for a node of
    /// it, along a route of its segments that begins with the segment the
    /// vehicle is on.
    pub open spec fn wf(&self, road: &Road) -> bool {
        &&& self.segment.id < road.segments@.len()
        &&& self.destination.id < road.nodes@.len()
        &&& self.route@.len() > 0
        &&& self.route@[0].id == self.segment.id
        &&& ids_below(self.route@, road.segments@.len() as int)
    }

    /// Whether the vehicle is within its segment and does not drive
    /// backwards.
    pub open spec fn in_bounds(&self) -> bool {
        0 <= self.progress <= ONE && self.speed >= 0
    }

    /// Whether the vehicle stands at the start of `segment`, as new.
    pub open spec fn fresh(
        &self,
        segment: Id<Segment>,
        destination: Id<Node>,
        route: Seq<Id<Segment>>,
        draws: Draws,
    ) -> bool {
        &&& self.speed == 0
        &&& self.segment == segment
        &&& self.progress == 0
        &&& self.destination == destination
        &&& self.route@ == route
        &&& self.idm == Idm::with_draws_spec(draws.aggression, draws.idm)
        &&& self.gap == GapAcceptance::with_draw_spec(draws.aggression, draws.gap)
        &&& self.length == DEFAULT_CAR_LENGTH
        &&& self.width == DEFAULT_CAR_WIDTH
        &&& self.blinker == Blinker::Off
        &&& !self.braking
        &&& self.player is None
    }

    /// A vehicle at rest at the start of `segment`, of the usual size, with
    /// the driver that `draws` gives.
    pub fn with_draws(
        segment: Id<Segment>,
        destination: Id<Node>,
        route: Vec<Id<Segment>>,
        draws: Draws,
    ) -> (r: Vehicle)
        ensures
            r.fresh(segment, destination, route@, draws),
            r.in_bounds(),
    {
        Vehicle {
            speed: 0,
            segment,
            progress: 0,
            destination,
            route,
            idm: Idm::with_draws(draws.aggression, draws.idm),
            gap: GapAcceptance::with_draw(draws.aggression, draws.gap),
            length: DEFAULT_CAR_LENGTH,
            width: DEFAULT_CAR_WIDTH,
            blinker: Blinker::Off,
            braking: false,
            player: None,
        }
    }

    /// A vehicle at rest at the start of `segment`, of the usual size, with
    /// a driver made by chance.
    pub fn new(segment: Id<Segment>, destination: Id<Node>, route: Vec<Id<Segment>>) -> (r: Vehicle)
        ensures
            exists|draws: Draws| draws.wf() && #[trigger] r.fresh(segment, destination, route@, draws),
            r.in_bounds(),
    {
        Vehicle::with_draws(segment, destination, route, Draws::random())
    }
}

impl Vehicle {
    /// The progress after a tick of `dt` seconds on a segment of the given
    /// length, before the end of the segment is looked at.
    pub open spec fn moved_spec(&self, length: i64, dt: i64) -> i64 {
        add_spec(self.progress, div_spec(mul_spec(self.speed, dt), length))
    }

    /// The progress on a segment of length `next_length` of a vehicle that
    /// came `moved` along a segment of length `length`, beyond its end.
    pub open spec fn carried_spec(moved: i64, length: i64, next_length: i64) -> i64 {
        div_spec(mul_spec(sub_spec(moved, ONE), length), next_length)
    }

    /// Equal but for the progress.
    pub open spec fn same_but_progress(&self, o: &Vehicle) -> bool {
        &&& self.speed == o.speed
        &&& self.segment == o.segment
        &&& self.destination == o.destination
        &&& self.route@ == o.route@
        &&& self.idm == o.idm
        &&& self.gap == o.gap
        &&& self.length == o.length
        &&& self.width == o.width
        &&& self.blinker == o.blinker
        &&& self.braking == o.braking
        &&& self.player == o.player
    }

    /// Equal but for the place in the network and the standing at the
    /// intersection ahead.
    pub open spec fn same_driver(&self, o: &Vehicle) -> bool {
        &&& self.speed == o.speed
        &&& self.destination == o.destination
        &&& self.idm == o.idm
        &&& self.gap.min_gap == o.gap.min_gap
        &&& self.gap.cleared_to_go == o.gap.cleared_to_go
        &&& self.length == o.length
        &&& self.width == o.width
        &&& self.blinker == o.blinker
        &&& self.braking == o.braking
        &&& self.player == o.player
    }

    /// Whether the vehicle leaves the network in a tick of `dt` seconds: it
    /// reaches the end of its segment, and there is no way on from there to
    /// its destination.
    pub open spec fn leaves(&self, road: &Road, dt: i64) -> bool {
        let segment = road.segments@[self.segment.id as int];
        &&& self.moved_spec(segment.length, dt) >= ONE
        &&& {
            ||| road.nodes@[segment.to.id as int].outgoing@.len() == 0
            ||| segment.to.id == self.destination.id
            ||| !road.reachable(segment.to.id as int, self.destination.id as int)
        }
    }

    /// Whether `after` is what a tick of `dt` seconds makes of the vehicle,
    /// where it stays in the network.
    ///
    /// Within its segment only its progress changes. At the end of its
    /// segment it goes on by a way of fewest segments to its destination,
    /// carries over the distance it came beyond the end, and forgets what
    /// it has waited and in which order it arrived.
    pub open spec fn advanced(&self, after: &Vehicle, road: &Road, dt: i64) -> bool {
        let segment = road.segments@[self.segment.id as int];
        let moved = self.moved_spec(segment.length, dt);
        if moved < ONE {
            after.same_but_progress(self) && after.progress == moved
        } else {
            &&& after.same_driver(self)
            &&& road.is_route(segment.to.id as int, after.route@, self.destination.id as int)
            &&& road.at_least(
                segment.to.id as int,
                self.destination.id as int,
                after.route@.len() as int,
            )
            &&& after.segment == after.route@[0]
            &&& after.progress == Vehicle::carried_spec(
                moved,
                segment.length,
                road.segments@[after.segment.id as int].length,
            )
            &&& after.gap.waiting_time is None
            &&& after.gap.arrival_order == NO_ARRIVAL
        }
    }

    /// Moves the vehicle by a tick of `dt` seconds. Returns whether it
    /// stays in the network.
    pub fn advance(&mut self, road: &Road, dt: i64) -> (stays: bool)
        requires
            road.wf(),
            old(self).wf(road),
        ensures
            stays == !old(self).leaves(road, dt),
            stays ==> old(self).advanced(final(self), road, dt) && final(self).wf(road),
    {
        let segment = road.segments.get(&self.segment);
        let length = segment.length;
        let moved = fx_add(self.progress, fx_div(fx_mul(self.speed, dt), length));
        if moved < ONE {
            self.progress = moved;
            return true;
        }
        proof {
            assert(road.wired(self.segment.id as int));
        }
        if road.nodes.get(&segment.to).outgoing.len() == 0 {
            return false;
        }
        match next_segment_toward(road, segment.to, self.destination) {
            Some((next, route)) => {
                proof {
                    lemma_route_ids(road, segment.to.id as int, route@, self.destination.id as int);
                }
                let next_length = road.segments.get(&next).length;
                self.progress = fx_div(fx_mul(fx_sub(moved, ONE), length), next_length);
                self.route = route;
                self.segment = next;
                self.gap.waiting_time = None;
                self.gap.arrival_order = NO_ARRIVAL;
                true
            },
            None => false,
        }
    }
}

/// Every segment of a way is a segment of the network.
pub proof fn lemma_route_ids(road: &Road, a: int, route: Seq<Id<Segment>>, b: int)
    requires
        road.leads(a, route, b),
    ensures
        ids_below(route, road.segments@.len() as int),
    decreases route.len(),
{
    if route.len() > 0 {
        let next = road.segments@[route[0].id as int].to.id as int;
        lemma_route_ids(road, next, route.drop_first(), b);
        assert forall|k: int| 0 <= k < route.len() implies (#[trigger] route[k]).id
            < road.segments@.len() by {
            if k > 0 {
                assert(route[k] == route.drop_first()[k - 1]);
            }
        }
    }
}

/// A vehicle that drives forward stays within the segment it is on: its
/// progress is not negative, and it is not beyond the end unless it came
/// further beyond the end of its last segment than its new segment is long.
pub proof fn lemma_progress_in_bounds(before: &Vehicle, after: &Vehicle, road: &Road, dt: i64)
    requires
        before.wf(road),
        before.in_bounds(),
        dt >= 0,
        road.segments@[before.segment.id as int].length > 0,
        before.advanced(after, road, dt),
        after.segment.id < road.segments@.len(),
        road.segments@[after.segment.id as int].length > 0,
        mul_spec(
            sub_spec(
                before.moved_spec(road.segments@[before.segment.id as int].length, dt),
                ONE,
            ),
            road.segments@[before.segment.id as int].length,
        ) <= road.segments@[after.segment.id as int].length,
    ensures
        after.in_bounds(),
{
    let length = road.segments@[before.segment.id as int].length;
    let moved = before.moved_spec(length, dt);
    lemma_mul_nonnegative(before.speed, dt);
    lemma_div_bounds(mul_spec(before.speed, dt), length);
    if moved >= ONE {
        let next_length = road.segments@[after.segment.id as int].length;
        lemma_mul_nonnegative(sub_spec(moved, ONE), length);
        lemma_div_bounds(mul_spec(sub_spec(moved, ONE), length), next_length);
    }
}

/// The positions of the vehicles among the first `k` that stay, ascending.
pub open spec fn staying_spec(left: Seq<bool>, k: int) -> Seq<int>
    decreases k,
{
    if k <= 0 {
        Seq::empty()
    } else if left[k - 1] {
        staying_spec(left, k - 1)
    } else {
        staying_spec(left, k - 1).push(k - 1)
    }
}

/// What a tick of movement makes of the first `count` vehicles: `after`
/// holds, in their order, those of them that stay, each moved on, followed
/// by the others as they were; and `left` tells of each of the first
/// `count` whether it left.
pub open spec fn vehicles_moved(
    road: &Road,
    before: Seq<Vehicle>,
    after: Seq<Vehicle>,
    left: Seq<bool>,
    dt: i64,
    count: int,
) -> bool {
    let staying = staying_spec(left, count);
    &&& left.len() == count
    &&& after.len() == staying.len() + (before.len() - count)
    &&& forall|i: int| 0 <= i < count ==> #[trigger] left[i] == before[i].leaves(road, dt)
    &&& forall|m: int|
        0 <= m < staying.len() ==> before[staying[m]].advanced(#[trigger] &after[m], road, dt)
            && after[m].wf(road)
    &&& forall|j: int| count <= j < before.len() ==> after[staying.len() + (j - count)] == before[j]
}

/// Moves every vehicle by a tick of `dt` seconds and takes those out of the
/// list that leave the network. Returns, for each vehicle of the list as it
/// was, whether it left.
#[verifier::rlimit(40)]
pub fn move_and_despawn_vehicles(dt: i64, vehicles: &mut Vec<Vehicle>, road: &Road) -> (left: Vec<
    bool,
>)
    requires
        road.wf(),
        forall|i: int| 0 <= i < old(vehicles)@.len() ==> (#[trigger] old(vehicles)@[i]).wf(road),
    ensures
        vehicles_moved(
            road,
            old(vehicles)@,
            final(vehicles)@,
            left@,
            dt,
            old(vehicles)@.len() as int,
        ),
        forall|i: int|
            0 <= i < final(vehicles)@.len() ==> (#[trigger] final(vehicles)@[i]).wf(road),
        road.orderly(old(vehicles)@) ==> road.orderly(final(vehicles)@),
{
    let mut left: Vec<bool> = Vec::new();
    let mut at: usize = 0;
    let total = vehicles.len();
    while left.len() < total
        invariant
            road.wf(),
            total == old(vehicles)@.len(),
            left@.len() <= total,
            at == staying_spec(left@, left@.len() as int).len(),
            at <= left@.len(),
            forall|i: int|
                0 <= i < old(vehicles)@.len() ==> (#[trigger] old(vehicles)@[i]).wf(road),
            vehicles_moved(road, old(vehicles)@, vehicles@, left@, dt, left@.len() as int),
        decreases total - left@.len(),
    {
        let ghost done = left@.len() as int;
        let ghost before = vehicles@;
        let ghost flags = left@;
        let ghost slot = at as int;
        proof {
            assert(before[at as int] == old(vehicles)@[done]);
            assert(old(vehicles)@[done].wf(road));
        }
        let stays = vehicles[at].advance(road, dt);
        let ghost moved = vehicles@;
        if stays {
            left.push(false);
            at += 1;
        } else {
            vehicles.remove(at);
            left.push(true);
        }
        proof {
            let staying = staying_spec(flags, done);
            let more = staying_spec(left@, done + 1);
            lemma_staying_prefix(flags, left@, done);
            assert(more == if stays {
                staying.push(done)
            } else {
                staying
            });
            assert(forall|j: int| 0 <= j < moved.len() && j != slot ==> moved[j] == before[j]);
            assert(old(vehicles)@[done].advanced(&moved[slot], road, dt) || !stays);
            assert forall|i: int| 0 <= i < done + 1 implies #[trigger] left@[i] == old(
                vehicles,
            )@[i].leaves(road, dt) by {
                if i < done {
                    assert(left@[i] == flags[i]);
                }
            }
            lemma_staying_range(flags, done);
            assert forall|m: int| 0 <= m < more.len() implies old(vehicles)@[more[m]].advanced(
                #[trigger] &vehicles@[m],
                road,
                dt,
            ) && vehicles@[m].wf(road) by {
                if m < staying.len() {
                    assert(more[m] == staying[m]);
                    assert(vehicles@[m] == before[m]);
                    assert(old(vehicles)@[staying[m]].advanced(&before[m], road, dt));
                } else {
                    assert(stays);
                    assert(m == slot);
                    assert(vehicles@[m] == moved[m]);
                }
            }
            assert forall|j: int| done + 1 <= j < old(vehicles)@.len() implies vehicles@[more.len()
                + (j - (done + 1))] == old(vehicles)@[j] by {
                assert(before[staying.len() + (j - done)] == old(vehicles)@[j]);
                assert(moved[staying.len() + (j - done)] == before[staying.len() + (j - done)]);
            }
            assert(vehicles_moved(road, old(vehicles)@, vehicles@, left@, dt, done + 1));
        }
    }
    proof {
        assert forall|i: int| 0 <= i < vehicles@.len() implies (#[trigger] vehicles@[i]).wf(
            road,
        ) by {
            let staying = staying_spec(left@, total as int);
            lemma_staying_range(left@, total as int);
            assert(old(vehicles)@[staying[i]].advanced(&vehicles@[i], road, dt));
        }
        if road.orderly(old(vehicles)@) {
            let staying = staying_spec(left@, total as int);
            lemma_staying_range(left@, total as int);
            assert forall|m: int| 0 <= m < vehicles@.len() implies (
            #[trigger] vehicles@[m]).gap.arrival_order == NO_ARRIVAL || (
            vehicles@[m].gap.arrival_order == old(vehicles)@[staying[m]].gap.arrival_order
                && vehicles@[m].route@ == old(vehicles)@[staying[m]].route@) by {
                assert(old(vehicles)@[staying[m]].advanced(&vehicles@[m], road, dt));
            }
            lemma_orderly_from(road, old(vehicles)@, vehicles@, staying);
        }
    }
    left
}

/// The positions of the vehicles that stay are positions of the list, in
/// strictly ascending order.
pub proof fn lemma_staying_range(left: Seq<bool>, k: int)
    requires
        0 <= k <= left.len(),
    ensures
        staying_spec(left, k).len() <= k,
        forall|m: int|
            0 <= m < staying_spec(left, k).len() ==> 0 <= #[trigger] staying_spec(left, k)[m] < k,
        forall|m: int, n: int|
            0 <= m < n < staying_spec(left, k).len() ==> staying_spec(left, k)[m] < staying_spec(
                left,
                k,
            )[n],
    decreases k,
{
    if k > 0 {
        lemma_staying_range(left, k - 1);
    }
}

/// Of the first `k` vehicles the same stay, whatever is told of the later
/// ones.
proof fn lemma_staying_prefix(flags: Seq<bool>, more: Seq<bool>, k: int)
    requires
        0 <= k <= flags.len(),
        k <= more.len(),
        forall|i: int| 0 <= i < k ==> flags[i] == more[i],
    ensures
        staying_spec(flags, k) == staying_spec(more, k),
    decreases k,
{
    if k > 0 {
        lemma_staying_prefix(flags, more, k - 1);
    }
}

/// The network holds no more vehicles than this by spawning.
pub const MAX_VEHICLES: usize = 40;

/// The chance that a vehicle appears at a node in a tick: a tenth.
pub const SPAWN_CHANCE: i64 = 100_000;

/// Whether a vehicle is to appear, given the fraction drawn for the node
/// and the number of vehicles in the network.
pub open spec fn wants_spawn_spec(draw: i64, count: int) -> bool {
    draw < SPAWN_CHANCE && count < MAX_VEHICLES
}

pub fn wants_spawn(draw: i64, count: usize) -> (r: bool)
    ensures
        r == wants_spawn_spec(draw, count as int),
{
    draw < SPAWN_CHANCE && count < MAX_VEHICLES
}

/// A place to go to from a node, and the way there.
#[derive(Debug)]
pub struct Trip {
    pub destination: Id<Node>,
    pub first: Id<Segment>,
    pub route: Vec<Id<Segment>>,
}

impl Road {
    /// Whether node `d` is a place to go to from node `a`: vehicles leave
    /// the network there, it is another place, and a way leads there.
    pub open spec fn is_goal(&self, a: int, d: int) -> bool {
        &&& 0 <= d < self.nodes@.len()
        &&& self.nodes@[d].is_despawn
        &&& self.nodes@[d].position != self.nodes@[a].position
        &&& a != d
        &&& self.reachable(a, d)
    }

    /// The goals among the first `k` nodes, ascending.
    pub open spec fn goals_upto(&self, a: int, k: int) -> Seq<int>
        decreases k,
    {
        if k <= 0 {
            Seq::empty()
        } else if self.is_goal(a, k - 1) {
            self.goals_upto(a, k - 1).push(k - 1)
        } else {
            self.goals_upto(a, k - 1)
        }
    }

    /// Whether `trip` goes from node `a` to node `d` by a way of fewest
    /// segments.
    pub open spec fn is_trip(&self, trip: &Trip, a: int, d: int) -> bool {
        &&& trip.destination.id == d
        &&& self.is_route(a, trip.route@, d)
        &&& self.at_least(a, d, trip.route@.len() as int)
        &&& trip.first == trip.route@[0]
    }

    /// The places to go to from `spawn`, in ascending order of the nodes,
    /// each with a way of fewest segments.
    pub fn trips_from(&self, spawn: Id<Node>) -> (r: Vec<Trip>)
        requires
            self.wf(),
            spawn.id < self.nodes@.len(),
        ensures
            r@.len() == self.goals_upto(spawn.id as int, self.nodes@.len() as int).len(),
            forall|k: int|
                0 <= k < r@.len() ==> self.is_trip(
                    #[trigger] &r@[k],
                    spawn.id as int,
                    self.goals_upto(spawn.id as int, self.nodes@.len() as int)[k],
                ),
    {
        let here = self.nodes.get(&spawn).position;
        let mut out: Vec<Trip> = Vec::new();
        let mut d: usize = 0;
        while d < self.nodes.len()
            invariant
                self.wf(),
                spawn.id < self.nodes@.len(),
                here == self.nodes@[spawn.id as int].position,
                d <= self.nodes@.len(),
                out@.len() == self.goals_upto(spawn.id as int, d as int).len(),
                forall|k: int|
                    0 <= k < out@.len() ==> self.is_trip(
                        #[trigger] &out@[k],
                        spawn.id as int,
                        self.goals_upto(spawn.id as int, d as int)[k],
                    ),
            decreases self.nodes@.len() - d,
        {
            let destination = Id::new(d);
            let node = self.nodes.get(&destination);
            if node.is_despawn && !(node.position == here) {
                match next_segment_toward(self, spawn, destination) {
                    Some((first, route)) => {
                        out.push(Trip { destination, first, route });
                    },
                    None => {},
                }
            }
            d += 1;
        }
        out
    }
}

impl Vehicle {
    /// Whether the vehicle has just appeared at node `a` of `road`: new, at
    /// the start of a way of fewest segments to a goal of that node.
    pub open spec fn spawned_at(&self, road: &Road, a: int) -> bool {
        &&& road.is_goal(a, self.destination.id as int)
        &&& road.is_route(a, self.route@, self.destination.id as int)
        &&& road.at_least(a, self.destination.id as int, self.route@.len() as int)
        &&& exists|draws: Draws|
            draws.wf() && #[trigger] self.fresh(self.route@[0], self.destination, self.route@, draws)
    }
}

impl Road {
    /// Whether vehicles appear at node `n`: it is marked for that, and a
    /// segment departs from it.
    pub open spec fn is_source(&self, n: int) -> bool {
        self.nodes@[n].is_spawn && self.nodes@[n].outgoing@.len() > 0
    }
}

/// Whether `after` holds the vehicles of `before` as they were and, after
/// them, one new vehicle for each node of `sources`, in their order. The
/// nodes are nodes where vehicles appear, in strictly ascending order, and
/// each vehicle came while the network held fewer than the greatest number.
pub open spec fn vehicles_spawned(
    road: &Road,
    before: Seq<Vehicle>,
    after: Seq<Vehicle>,
    sources: Seq<int>,
) -> bool {
    &&& after.len() == before.len() + sources.len()
    &&& forall|i: int| 0 <= i < before.len() ==> after[i] == before[i]
    &&& forall|j: int, k: int| 0 <= j < k < sources.len() ==> sources[j] < sources[k]
    &&& forall|j: int|
        0 <= j < sources.len() ==> {
            &&& 0 <= (#[trigger] sources[j]) < road.nodes@.len()
            &&& road.is_source(sources[j])
            &&& before.len() + j < MAX_VEHICLES
        }
    &&& forall|i: int|
        before.len() <= i < after.len() ==> (#[trigger] after[i]).spawned_at(
            road,
            sources[i - before.len()],
        ) && after[i].wf(road)
}

/// Lets vehicles appear: at each node where they may, in ascending order of
/// the nodes, with a chance of one in ten, as long as the network holds
/// fewer than forty. A new vehicle is bound for one of the goals of the
/// node, picked by chance; at a node without a goal none appears.
#[verifier::rlimit(40)]
pub fn spawn_vehicles(vehicles: &mut Vec<Vehicle>, road: &Road)
    requires
        road.wf(),
    ensures
        exists|sources: Seq<int>| #[trigger]
            vehicles_spawned(road, old(vehicles)@, final(vehicles)@, sources),
        road.orderly(old(vehicles)@) ==> road.orderly(final(vehicles)@),
{
    let mut n: usize = 0;
    let ghost mut sources: Seq<int> = Seq::empty();
    while n < road.nodes.len()
        invariant
            road.wf(),
            n <= road.nodes@.len(),
            vehicles_spawned(road, old(vehicles)@, vehicles@, sources),
            forall|j: int| 0 <= j < sources.len() ==> (#[trigger] sources[j]) < n,
        decreases road.nodes@.len() - n,
    {
        let spawn = Id::new(n);
        let node = road.nodes.get(&spawn);
        if node.is_spawn && node.outgoing.len() > 0 {
            if wants_spawn(random_unit(), vehicles.len()) {
                let trips = road.trips_from(spawn);
                match random_index(trips.len()) {
                    Some(pick) => {
                        let ghost goals = road.goals_upto(n as int, road.nodes@.len() as int);
                        let ghost before = vehicles@;
                        let ghost earlier = sources;
                        let destination = trips[pick].destination;
                        let first = trips[pick].first;
                        let route = crate::road::copy_ids(&trips[pick].route);
                        let vehicle = Vehicle::new(first, destination, route);
                        proof {
                            road.lemma_goals(n as int, road.nodes@.len() as int);
                            assert(road.is_trip(&trips@[pick as int], n as int, goals[pick as int]));
                            assert(road.is_goal(n as int, destination.id as int));
                            lemma_route_ids(road, n as int, route@, destination.id as int);
                            assert(vehicle.spawned_at(road, n as int));
                            assert(road.is_source(n as int));
                        }
                        vehicles.push(vehicle);
                        proof {
                            sources = sources.push(n as int);
                            let base = old(vehicles)@.len() as int;
                            assert forall|i: int| base <= i < vehicles@.len() implies (
                            #[trigger] vehicles@[i]).spawned_at(road, sources[i - base])
                                && vehicles@[i].wf(road) by {
                                if i < before.len() {
                                    assert(vehicles@[i] == before[i]);
                                    assert(sources[i - base] == earlier[i - base]);
                                    assert(before[i].spawned_at(road, earlier[i - base]));
                                }
                            }
                            assert forall|j: int| 0 <= j < sources.len() implies {
                                &&& 0 <= (#[trigger] sources[j]) < road.nodes@.len()
                                &&& road.is_source(sources[j])
                                &&& base + j < MAX_VEHICLES
                            } by {
                                if j < earlier.len() {
                                    assert(sources[j] == earlier[j]);
                                }
                            }
                            assert forall|j: int, k: int|
                                0 <= j < k < sources.len() implies sources[j] < sources[k] by {
                                assert(sources[j] == earlier[j]);
                                if k < earlier.len() {
                                    assert(sources[k] == earlier[k]);
                                }
                            }
                        }
                    },
                    None => {},
                }
            }
        }
        n += 1;
    }
    proof {
        if road.orderly(old(vehicles)@) {
            assert forall|i: int| old(vehicles)@.len() <= i < vehicles@.len() implies (
            #[trigger] vehicles@[i]).gap.arrival_order == NO_ARRIVAL by {
                assert(vehicles@[i].spawned_at(road, sources[i - old(vehicles)@.len()]));
            }
            lemma_orderly_kept_and_grown(road, old(vehicles)@, vehicles@);
        }
    }
}

impl Road {
    /// Every goal listed is one.
    pub proof fn lemma_goals(&self, a: int, k: int)
        requires
            0 <= k <= self.nodes@.len(),
        ensures
            forall|i: int|
                0 <= i < self.goals_upto(a, k).len() ==> self.is_goal(
                    a,
                    #[trigger] self.goals_upto(a, k)[i],
                ),
        decreases k,
    {
        if k > 0 {
            self.lemma_goals(a, k - 1);
            let prev = self.goals_upto(a, k - 1);
            let cur = self.goals_upto(a, k);
            assert forall|i: int| 0 <= i < cur.len() implies self.is_goal(a, #[trigger] cur[i]) by {
                if i < prev.len() {
                    assert(cur[i] == prev[i]);
                }
            }
        }
    }
}

} // verus!

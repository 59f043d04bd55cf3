//! The Intelligent Driver Model: how hard a vehicle accelerates or brakes,
//! given its speed, the road ahead and its driver.
//!
//! Distances are in metres, speeds in metres per second, accelerations in
//! metres per second squared, times in seconds.

use crate::driver::gap::lemma_orderly_kept_and_grown;
use crate::driver::occupancy::{Occupant, SegmentOccupancy};
use crate::driver::vehicle::Vehicle;
use crate::fixed::{
    add_spec, div_spec, fx_add, fx_div, fx_max, fx_min, fx_mul, fx_neg, fx_sqrt, fx_sub, lerp,
    lerp_spec, max_spec, min_spec, mul_spec, neg_spec, sqrt_spec, sub_spec, LIMIT, ONE,
};
use crate::random::random_unit;
use crate::road::Road;
use vstd::prelude::*;

verus! {

/// No parameter of a driver is smaller than this: 0.5.
pub const PARAMETER_FLOOR: i64 = 500_000;

/// The gap is never taken to be smaller than this: 1 cm.
pub const GAP_FLOOR: i64 = 10_000;

/// The parameters of a driver.
///
/// Typical values on real roads: a time headway of 1 to 2 s, a spacing at
/// standstill of 2 to 5 m, an acceleration of 1 to 3 m/s² and a comfortable
/// deceleration of 1.5 to 3 m/s².
#[derive(Clone, Copy, Debug, PartialEq, Eq, Structural)]
pub struct Idm {
    /// From `0`, a careful driver, to `1`, an aggressive one.
    pub aggression: i64,
    pub desired_time_headway: i64,
    pub min_spacing: i64,
    pub max_acceleration: i64,
    pub comfortable_deceleration: i64,
}

/// The value between `safe` and `aggressive` that suits a driver of the
/// given aggression, moved by the fraction `draw` of the way from `-range`
/// to `range`.
pub open spec fn blend_spec(safe: i64, aggressive: i64, aggression: i64, range: i64, draw: i64) -> i64 {
    add_spec(
        lerp_spec(safe, aggressive, aggression),
        mul_spec(range, sub_spec(mul_spec(draw, 2_000_000), ONE)),
    )
}

pub fn blend_with(safe: i64, aggressive: i64, aggression: i64, range: i64, draw: i64) -> (r: i64)
    ensures
        r == blend_spec(safe, aggressive, aggression, range, draw),
{
    fx_add(lerp(safe, aggressive, aggression), fx_mul(range, fx_sub(fx_mul(draw, 2_000_000), ONE)))
}

/// The value between `safe` and `aggressive` that suits a driver of the
/// given aggression, moved by a chance amount of at most `range`.
pub fn blend(safe: i64, aggressive: i64, aggression: i64, range: i64) -> (r: i64)
    ensures
        exists|draw: i64|
            0 <= draw < ONE && r == #[trigger] blend_spec(safe, aggressive, aggression, range, draw),
{
    let draw = random_unit();
    blend_with(safe, aggressive, aggression, range, draw)
}

impl Idm {
    /// The driver of the given aggression whose four parameters were moved
    /// by the four draws.
    pub open spec fn with_draws_spec(aggression: i64, draws: (i64, i64, i64, i64)) -> Idm {
        Idm {
            aggression,
            desired_time_headway: max_spec(
                blend_spec(1_500_000, 800_000, aggression, 200_000, draws.0),
                PARAMETER_FLOOR,
            ),
            min_spacing: max_spec(
                blend_spec(2_000_000, 1_000_000, aggression, 500_000, draws.1),
                PARAMETER_FLOOR,
            ),
            max_acceleration: max_spec(
                blend_spec(1_000_000, 3_000_000, aggression, 500_000, draws.2),
                PARAMETER_FLOOR,
            ),
            comfortable_deceleration: max_spec(
                blend_spec(1_500_000, 3_000_000, aggression, 500_000, draws.3),
                PARAMETER_FLOOR,
            ),
        }
    }

    /// Whether no parameter is below the floor.
    pub open spec fn wf(&self) -> bool {
        &&& self.desired_time_headway >= PARAMETER_FLOOR
        &&& self.min_spacing >= PARAMETER_FLOOR
        &&& self.max_acceleration >= PARAMETER_FLOOR
        &&& self.comfortable_deceleration >= PARAMETER_FLOOR
    }

    pub fn with_draws(aggression: i64, draws: (i64, i64, i64, i64)) -> (r: Idm)
        ensures
            r == Idm::with_draws_spec(aggression, draws),
            r.wf(),
    {
        Idm {
            aggression,
            desired_time_headway: fx_max(
                blend_with(1_500_000, 800_000, aggression, 200_000, draws.0),
                PARAMETER_FLOOR,
            ),
            min_spacing: fx_max(
                blend_with(2_000_000, 1_000_000, aggression, 500_000, draws.1),
                PARAMETER_FLOOR,
            ),
            max_acceleration: fx_max(
                blend_with(1_000_000, 3_000_000, aggression, 500_000, draws.2),
                PARAMETER_FLOOR,
            ),
            comfortable_deceleration: fx_max(
                blend_with(1_500_000, 3_000_000, aggression, 500_000, draws.3),
                PARAMETER_FLOOR,
            ),
        }
    }

    /// A driver of the given aggression, each parameter moved by chance.
    pub fn new(aggression: i64) -> (r: Idm)
        ensures
            r.wf(),
            exists|draws: (i64, i64, i64, i64)|
                {
                    &&& 0 <= draws.0 < ONE
                    &&& 0 <= draws.1 < ONE
                    &&& 0 <= draws.2 < ONE
                    &&& 0 <= draws.3 < ONE
                    &&& r == #[trigger] Idm::with_draws_spec(aggression, draws)
                },
    {
        let draws = (random_unit(), random_unit(), random_unit(), random_unit());
        Idm::with_draws(aggression, draws)
    }

    /// The speed the driver would like to drive at: from 0.8 to 1.2 times
    /// the limit, with the aggression.
    pub open spec fn desired_speed_spec(&self, speed_limit: i64) -> i64 {
        lerp_spec(mul_spec(speed_limit, 800_000), mul_spec(speed_limit, 1_200_000), self.aggression)
    }

    /// The gap the driver would like to keep: the spacing at standstill,
    /// the way driven in the time headway, and a term for closing in.
    pub open spec fn desired_gap_spec(&self, speed: i64, delta_speed: i64) -> i64 {
        add_spec(
            add_spec(self.min_spacing, mul_spec(speed, self.desired_time_headway)),
            div_spec(
                mul_spec(speed, delta_speed),
                mul_spec(
                    2_000_000,
                    sqrt_spec(mul_spec(self.max_acceleration, self.comfortable_deceleration)),
                ),
            ),
        )
    }

    /// The acceleration of the model,
    /// `a · (1 − (v / v₀)⁴ − (s* / gap)²)`, kept between an emergency
    /// braking of twice the comfortable deceleration and the greatest
    /// acceleration.
    pub open spec fn acceleration_spec(
        &self,
        speed_limit: i64,
        speed: i64,
        gap: i64,
        delta_speed: i64,
    ) -> i64 {
        let ratio = div_spec(speed, self.desired_speed_spec(speed_limit));
        let square = mul_spec(ratio, ratio);
        let closeness = div_spec(self.desired_gap_spec(speed, delta_speed), max_spec(gap, GAP_FLOOR));
        let raw = mul_spec(
            self.max_acceleration,
            sub_spec(sub_spec(ONE, mul_spec(square, square)), mul_spec(closeness, closeness)),
        );
        min_spec(
            max_spec(raw, neg_spec(mul_spec(self.comfortable_deceleration, 2_000_000))),
            self.max_acceleration,
        )
    }

    pub fn acceleration(&self, speed_limit: i64, speed: i64, gap: i64, delta_speed: i64) -> (r: i64)
        ensures
            r == self.acceleration_spec(speed_limit, speed, gap, delta_speed),
            r <= self.max_acceleration,
            self.wf() ==> r >= neg_spec(mul_spec(self.comfortable_deceleration, 2_000_000)),
    {
        proof {
            if self.wf() {
                crate::fixed::lemma_mul_nonnegative(self.comfortable_deceleration, 2_000_000);
            }
        }
        let desired_speed = lerp(
            fx_mul(speed_limit, 800_000),
            fx_mul(speed_limit, 1_200_000),
            self.aggression,
        );
        let gap = fx_max(gap, GAP_FLOOR);
        let desired_gap = fx_add(
            fx_add(self.min_spacing, fx_mul(speed, self.desired_time_headway)),
            fx_div(
                fx_mul(speed, delta_speed),
                fx_mul(
                    2_000_000,
                    fx_sqrt(fx_mul(self.max_acceleration, self.comfortable_deceleration)),
                ),
            ),
        );
        let ratio = fx_div(speed, desired_speed);
        let square = fx_mul(ratio, ratio);
        let closeness = fx_div(desired_gap, gap);
        let raw = fx_mul(
            self.max_acceleration,
            fx_sub(fx_sub(ONE, fx_mul(square, square)), fx_mul(closeness, closeness)),
        );
        fx_min(fx_max(raw, fx_neg(fx_mul(self.comfortable_deceleration, 2_000_000))), self.max_acceleration)
    }
}

impl Vehicle {
    /// Whether the vehicle is held back at the end of its segment: its last
    /// check of the gap failed.
    pub open spec fn held_spec(&self) -> bool {
        !self.gap.cleared_to_go && self.gap.waiting_time is Some
    }

    /// The gap ahead of the vehicle and the speed at which it closes, given
    /// the vehicle ahead and the distance to the end of the segment.
    ///
    /// A vehicle that is held back stops at the end of its segment, or
    /// behind the vehicle ahead where that is nearer. A vehicle that is not
    /// follows the vehicle ahead, and has a free road without one.
    pub open spec fn headway_spec(&self, ahead: Option<(Occupant, i64)>, to_end: i64) -> (i64, i64) {
        if self.held_spec() {
            match ahead {
                Some((leader, distance)) => if distance <= to_end {
                    (distance, sub_spec(self.speed, leader.speed))
                } else {
                    (to_end, self.speed)
                },
                None => (to_end, self.speed),
            }
        } else {
            match ahead {
                Some((leader, distance)) => (distance, sub_spec(self.speed, leader.speed)),
                None => (LIMIT, 0),
            }
        }
    }

    pub fn headway(&self, ahead: Option<(Occupant, i64)>, to_end: i64) -> (r: (i64, i64))
        ensures
            r == self.headway_spec(ahead, to_end),
    {
        let held = !self.gap.cleared_to_go && self.gap.waiting_time.is_some();
        if held {
            match ahead {
                Some((leader, distance)) => if distance <= to_end {
                    (distance, fx_sub(self.speed, leader.speed))
                } else {
                    (to_end, self.speed)
                },
                None => (to_end, self.speed),
            }
        } else {
            match ahead {
                Some((leader, distance)) => (distance, fx_sub(self.speed, leader.speed)),
                None => (LIMIT, 0),
            }
        }
    }

    /// The acceleration of the vehicle at position `entity` of the list.
    pub open spec fn acceleration_spec(
        &self,
        entity: usize,
        occupancy: &SegmentOccupancy,
        road: &Road,
    ) -> i64 {
        let headway = self.headway_spec(
            occupancy.find_next_spec(entity, self, road),
            road.distance_to_end_spec(self.segment.id as int, self.progress, self.length),
        );
        self.idm.acceleration_spec(
            road.segments@[self.segment.id as int].speed_limit,
            self.speed,
            headway.0,
            headway.1,
        )
    }

    /// The speed after a tick of `dt` seconds at the given acceleration:
    /// never backwards.
    pub open spec fn speed_after_spec(&self, acceleration: i64, dt: i64) -> i64 {
        max_spec(add_spec(self.speed, mul_spec(acceleration, dt)), 0)
    }

    /// Equal but for the speed and the brake lights.
    pub open spec fn same_but_speed(&self, o: &Vehicle) -> bool {
        &&& self.segment == o.segment
        &&& self.progress == o.progress
        &&& self.destination == o.destination
        &&& self.route@ == o.route@
        &&& self.idm == o.idm
        &&& self.gap == o.gap
        &&& self.length == o.length
        &&& self.width == o.width
        &&& self.blinker == o.blinker
        &&& self.player == o.player
    }
}

/// What a tick of the model makes of the vehicles: a vehicle of the player
/// keeps its speed, and every other has the speed that its acceleration
/// gives, with its brake lights on exactly if it slows down.
pub open spec fn idm_applied(
    road: &Road,
    occupancy: &SegmentOccupancy,
    before: Seq<Vehicle>,
    after: Seq<Vehicle>,
    dt: i64,
    count: int,
) -> bool {
    &&& after.len() == before.len()
    &&& forall|i: int|
        0 <= i < after.len() ==> {
            &&& (#[trigger] after[i]).same_but_speed(&before[i])
            &&& if i < count && before[i].player is None {
                let acceleration = before[i].acceleration_spec(i as usize, occupancy, road);
                &&& after[i].speed == before[i].speed_after_spec(acceleration, dt)
                &&& after[i].braking == (acceleration < 0)
                &&& after[i].speed >= 0
            } else {
                &&& after[i].speed == before[i].speed
                &&& after[i].braking == before[i].braking
            }
        }
}

/// One tick of `dt` seconds of the model, for every vehicle that the player
/// does not drive.
pub fn apply_idm(dt: i64, vehicles: &mut Vec<Vehicle>, occupancy: &SegmentOccupancy, road: &Road)
    requires
        road.wf(),
        occupancy.vehicles@.len() == road.segments@.len(),
        forall|i: int| 0 <= i < old(vehicles)@.len() ==> (#[trigger] old(vehicles)@[i]).wf(road),
    ensures
        idm_applied(
            road,
            occupancy,
            old(vehicles)@,
            final(vehicles)@,
            dt,
            old(vehicles)@.len() as int,
        ),
        road.orderly(old(vehicles)@) ==> road.orderly(final(vehicles)@),
{
    let mut i: usize = 0;
    while i < vehicles.len()
        invariant
            road.wf(),
            occupancy.vehicles@.len() == road.segments@.len(),
            i <= vehicles@.len(),
            forall|j: int|
                0 <= j < old(vehicles)@.len() ==> (#[trigger] old(vehicles)@[j]).wf(road),
            idm_applied(road, occupancy, old(vehicles)@, vehicles@, dt, i as int),
        decreases vehicles@.len() - i,
    {
        proof {
            assert(old(vehicles)@[i as int].wf(road));
            assert(vehicles@[i as int].same_but_speed(&old(vehicles)@[i as int]));
        }
        if vehicles[i].player.is_none() {
            let vehicle = &vehicles[i];
            let ahead = occupancy.find_next(i, vehicle, road);
            let to_end = road.distance_to_end(vehicle.segment, vehicle.progress, vehicle.length);
            let (gap, delta_speed) = vehicle.headway(ahead, to_end);
            let acceleration = vehicle.idm.acceleration(
                road.segments.get(&vehicle.segment).speed_limit,
                vehicle.speed,
                gap,
                delta_speed,
            );
            let speed = fx_max(fx_add(vehicle.speed, fx_mul(acceleration, dt)), 0);
            proof {
                lemma_same_acceleration(
                    &vehicles@[i as int],
                    &old(vehicles)@[i as int],
                    i,
                    occupancy,
                    road,
                );
            }
            vehicles[i].speed = speed;
            vehicles[i].braking = acceleration < 0;
        }
        i += 1;
    }
    proof {
        if road.orderly(old(vehicles)@) {
            assert forall|j: int| 0 <= j < vehicles@.len() implies (
            #[trigger] vehicles@[j]).gap.arrival_order == old(vehicles)@[j].gap.arrival_order
                && vehicles@[j].route@ == old(vehicles)@[j].route@ by {
                assert(vehicles@[j].same_but_speed(&old(vehicles)@[j]));
            }
            lemma_orderly_kept_and_grown(road, old(vehicles)@, vehicles@);
        }
    }
}

/// The acceleration depends on the fields of the vehicle alone.
proof fn lemma_same_acceleration(
    a: &Vehicle,
    b: &Vehicle,
    entity: usize,
    occupancy: &SegmentOccupancy,
    road: &Road,
)
    requires
        a.same_but_speed(b),
        a.speed == b.speed,
    ensures
        a.acceleration_spec(entity, occupancy, road) == b.acceleration_spec(
            entity,
            occupancy,
            road,
        ),
{
}

} // verus!

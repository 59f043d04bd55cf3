//! Spawners: vehicles that appear on a given segment at a given rate.

use crate::arena::Id;
use crate::driver::gap::lemma_orderly_kept_and_grown;
use crate::driver::vehicle::{Draws, Vehicle};
use crate::driver::yielding::NO_ARRIVAL;
use crate::fixed::{div_spec, fx_div, fx_sub, sub_spec, ONE};
use crate::road::{Road, Segment};
use vstd::prelude::*;

verus! {

/// The speed of the vehicles of a spawner that was given none: 2 m/s.
pub const DEFAULT_SPAWN_SPEED: i64 = 2_000_000;

/// Lets vehicles appear on a segment at a regular interval.
#[derive(Clone, Copy, Debug)]
pub struct VehicleSpawner {
    /// The segment on which the vehicles appear.
    pub segment: Id<Segment>,
    /// Vehicles per second.
    pub rate: i64,
    /// The time until the next vehicle appears.
    pub timer: i64,
    /// The speed of the vehicles.
    pub vehicle_speed: i64,
}

impl VehicleSpawner {
    pub fn new(segment: Id<Segment>, rate: i64) -> (r: VehicleSpawner)
        ensures
            r.segment == segment,
            r.rate == rate,
            r.timer == div_spec(ONE, rate),
            r.vehicle_speed == DEFAULT_SPAWN_SPEED,
    {
        VehicleSpawner {
            segment,
            rate,
            timer: fx_div(ONE, rate),
            vehicle_speed: DEFAULT_SPAWN_SPEED,
        }
    }

    pub fn with_speed(self, speed: i64) -> (r: VehicleSpawner)
        ensures
            r.segment == self.segment,
            r.rate == self.rate,
            r.timer == self.timer,
            r.vehicle_speed == speed,
    {
        VehicleSpawner {
            segment: self.segment,
            rate: self.rate,
            timer: self.timer,
            vehicle_speed: speed,
        }
    }

    /// Whether a vehicle is due after `dt` more seconds.
    pub open spec fn due_spec(&self, dt: i64) -> bool {
        sub_spec(self.timer, dt) <= 0
    }

    /// The spawner after `dt` more seconds: the timer has run down by them,
    /// and starts anew where a vehicle is due.
    pub open spec fn ticked_spec(&self, dt: i64) -> VehicleSpawner {
        VehicleSpawner {
            timer: if self.due_spec(dt) {
                div_spec(ONE, self.rate)
            } else {
                sub_spec(self.timer, dt)
            },
            ..*self
        }
    }

    /// Lets `dt` seconds pass. Returns whether a vehicle is due.
    pub fn tick(&mut self, dt: i64) -> (due: bool)
        ensures
            due == old(self).due_spec(dt),
            *final(self) == old(self).ticked_spec(dt),
    {
        self.timer = fx_sub(self.timer, dt);
        if self.timer <= 0 {
            self.timer = fx_div(ONE, self.rate);
            true
        } else {
            false
        }
    }

    /// Whether `vehicle` is one of this spawner, with the driver that `draws`
    /// gives: new, at the start of its segment, at its speed, bound for the
    /// end of the segment.
    pub open spec fn launched(&self, vehicle: &Vehicle, road: &Road, draws: Draws) -> bool {
        let to = road.segments@[self.segment.id as int].to;
        let resting = Vehicle { speed: 0, ..*vehicle };
        &&& vehicle.speed == self.vehicle_speed
        &&& resting.fresh(self.segment, to, seq![self.segment], draws)
    }

    /// A vehicle of this spawner, with the driver that `draws` gives.
    pub fn launch(&self, road: &Road, draws: Draws) -> (r: Vehicle)
        requires
            road.wf(),
            self.segment.id < road.segments@.len(),
        ensures
            self.launched(&r, road, draws),
            r.wf(road),
    {
        proof {
            assert(road.wired(self.segment.id as int));
        }
        let mut route: Vec<Id<Segment>> = Vec::new();
        route.push(self.segment);
        let mut vehicle = Vehicle::with_draws(
            self.segment,
            road.segments.get(&self.segment).to,
            route,
            draws,
        );
        vehicle.speed = self.vehicle_speed;
        vehicle
    }

    /// Whether `vehicle` is one of this spawner, with some driver made by
    /// chance.
    pub open spec fn launched_by_chance(&self, vehicle: &Vehicle, road: &Road) -> bool {
        exists|draws: Draws| draws.wf() && #[trigger] self.launched(vehicle, road, draws)
    }

    /// Whether the spawner lets a vehicle appear on `road` after `dt` more
    /// seconds: one is due, and its segment is a segment of the road.
    pub open spec fn fires(&self, road: &Road, dt: i64) -> bool {
        self.due_spec(dt) && self.segment.id < road.segments@.len()
    }
}

/// The positions of the spawners among the first `k` that let a vehicle
/// appear, ascending.
pub open spec fn firing_spec(spawners: Seq<VehicleSpawner>, road: &Road, dt: i64, k: int) -> Seq<int>
    decreases k,
{
    if k <= 0 {
        Seq::empty()
    } else if spawners[k - 1].fires(road, dt) {
        firing_spec(spawners, road, dt, k - 1).push(k - 1)
    } else {
        firing_spec(spawners, road, dt, k - 1)
    }
}

/// The positions of the spawners that let a vehicle appear are positions
/// of the list.
pub proof fn lemma_firing_range(spawners: Seq<VehicleSpawner>, road: &Road, dt: i64, k: int)
    requires
        0 <= k <= spawners.len(),
    ensures
        forall|j: int|
            0 <= j < firing_spec(spawners, road, dt, k).len() ==> 0 <= #[trigger] firing_spec(
                spawners,
                road,
                dt,
                k,
            )[j] < k,
    decreases k,
{
    if k > 0 {
        lemma_firing_range(spawners, road, dt, k - 1);
        let prev = firing_spec(spawners, road, dt, k - 1);
        let cur = firing_spec(spawners, road, dt, k);
        assert forall|j: int| 0 <= j < cur.len() implies 0 <= #[trigger] cur[j] < k by {
            if j < prev.len() {
                assert(cur[j] == prev[j]);
            }
        }
    }
}

/// What the first `count` spawners have made of the vehicles: the vehicles
/// that were there are there as they were, and after them stands one
/// vehicle for each spawner that let one appear, in the order of the
/// spawners, each with a driver made by chance.
pub open spec fn spawners_run(
    before: Seq<VehicleSpawner>,
    road: &Road,
    vehicles_before: Seq<Vehicle>,
    vehicles: Seq<Vehicle>,
    dt: i64,
    count: int,
) -> bool {
    let firing = firing_spec(before, road, dt, count);
    &&& vehicles.len() == vehicles_before.len() + firing.len()
    &&& forall|i: int| 0 <= i < vehicles_before.len() ==> vehicles[i] == vehicles_before[i]
    &&& forall|i: int|
        vehicles_before.len() <= i < vehicles.len() ==> (#[trigger] vehicles[i]).wf(road)
            && before[firing[i - vehicles_before.len()]].launched_by_chance(&vehicles[i], road)
}

/// Lets `dt` seconds pass for every spawner and a vehicle appear for each
/// that is due. A spawner whose segment is no segment of `road` lets none
/// appear.
pub fn spawn_vehicles(dt: i64, spawners: &mut Vec<VehicleSpawner>, vehicles: &mut Vec<Vehicle>, road: &Road)
    requires
        road.wf(),
    ensures
        final(spawners)@.len() == old(spawners)@.len(),
        forall|k: int|
            0 <= k < final(spawners)@.len() ==> #[trigger] final(spawners)@[k] == old(
                spawners,
            )@[k].ticked_spec(dt),
        spawners_run(
            old(spawners)@,
            road,
            old(vehicles)@,
            final(vehicles)@,
            dt,
            old(spawners)@.len() as int,
        ),
        road.orderly(old(vehicles)@) ==> road.orderly(final(vehicles)@),
{
    let mut k: usize = 0;
    while k < spawners.len()
        invariant
            road.wf(),
            k <= spawners@.len(),
            spawners@.len() == old(spawners)@.len(),
            forall|j: int|
                0 <= j < spawners@.len() ==> #[trigger] spawners@[j] == if j < k {
                    old(spawners)@[j].ticked_spec(dt)
                } else {
                    old(spawners)@[j]
                },
            spawners_run(old(spawners)@, road, old(vehicles)@, vehicles@, dt, k as int),
        decreases spawners@.len() - k,
    {
        let ghost before = vehicles@;
        let ghost firing = firing_spec(old(spawners)@, road, dt, k as int);
        let ghost mut drawn = Draws { aggression: 0, idm: (0, 0, 0, 0), gap: 0 };
        let due = spawners[k].tick(dt);
        if due && spawners[k].segment.id < road.segments.len() {
            let draws = Draws::random();
            let vehicle = spawners[k].launch(road, draws);
            proof {
                drawn = draws;
                assert(old(spawners)@[k as int].launched(&vehicle, road, draws));
            }
            vehicles.push(vehicle);
        }
        proof {
            let base = old(vehicles)@.len() as int;
            let more = firing_spec(old(spawners)@, road, dt, k + 1);
            lemma_firing_range(old(spawners)@, road, dt, k as int);
            assert forall|i: int| base <= i < vehicles@.len() implies (#[trigger] vehicles@[i]).wf(
                road,
            ) && old(spawners)@[more[i - base]].launched_by_chance(&vehicles@[i], road) by {
                if i < before.len() {
                    assert(more[i - base] == firing[i - base]);
                    assert(vehicles@[i] == before[i]);
                    assert(before[i].wf(road));
                } else {
                    assert(more[i - base] == k);
                    assert(old(spawners)@[k as int].launched(&vehicles@[i], road, drawn));
                }
            }
            assert forall|i: int| 0 <= i < base implies vehicles@[i] == old(vehicles)@[i] by {
                assert(before[i] == old(vehicles)@[i]);
            }
        }
        k += 1;
    }
    proof {
        if road.orderly(old(vehicles)@) {
            let firing = firing_spec(old(spawners)@, road, dt, old(spawners)@.len() as int);
            assert forall|i: int| old(vehicles)@.len() <= i < vehicles@.len() implies (
            #[trigger] vehicles@[i]).gap.arrival_order == NO_ARRIVAL by {
                let spawner = old(spawners)@[firing[i - old(vehicles)@.len()]];
                assert(spawner.launched_by_chance(&vehicles@[i], road));
            }
            lemma_orderly_kept_and_grown(road, old(vehicles)@, vehicles@);
        }
    }
}

} // verus!

//! Turn indicators.

use crate::driver::gap::{lemma_orderly_kept_and_grown, APPROACH_PROGRESS};
use crate::driver::vehicle::Vehicle;
use crate::driver::yielding::SIDE_THRESHOLD;
use crate::road::Road;
use crate::vector::Vec3;
use vstd::prelude::*;

verus! {

#[derive(Clone, Copy, Debug, PartialEq, Eq, Structural)]
pub enum Blinker {
    Off,
    Left,
    Right,
}

impl Default for Blinker {
    fn default() -> (r: Blinker)
        ensures
            r == Blinker::Off,
    {
        Blinker::Off
    }
}

/// The indicator for a change of heading from `current` to `next`: to the
/// side to which the heading turns, and none for a slight turn.
pub open spec fn indicated_spec(current: Vec3, next: Vec3) -> Blinker {
    let side = current.cross_z_spec(next);
    if side > SIDE_THRESHOLD {
        Blinker::Left
    } else if side < -SIDE_THRESHOLD {
        Blinker::Right
    } else {
        Blinker::Off
    }
}

pub fn indicated(current: Vec3, next: Vec3) -> (r: Blinker)
    ensures
        r == indicated_spec(current, next),
{
    let side = current.cross_z(next);
    if side > SIDE_THRESHOLD {
        Blinker::Left
    } else if side < -SIDE_THRESHOLD {
        Blinker::Right
    } else {
        Blinker::Off
    }
}

impl Vehicle {
    /// The indicator the vehicle shows: in the second half of its segment,
    /// the one for the turn from the line of its segment to the line from
    /// the end of its segment to the end of the next; else none.
    pub open spec fn blinker_spec(&self, road: &Road) -> Blinker {
        if self.progress < APPROACH_PROGRESS {
            Blinker::Off
        } else {
            match self.next_spec() {
                Some(next) => {
                    let segment = road.segments@[self.segment.id as int];
                    let from = road.nodes@[segment.from.id as int].position;
                    let to = road.nodes@[segment.to.id as int].position;
                    let beyond =
                        road.nodes@[road.segments@[next.id as int].to.id as int].position;
                    indicated_spec(
                        to.minus_spec(from).normalized_spec(),
                        beyond.minus_spec(to).normalized_spec(),
                    )
                },
                None => Blinker::Off,
            }
        }
    }

    /// Equal but for the indicator.
    pub open spec fn same_but_blinker(&self, o: &Vehicle) -> bool {
        &&& self.speed == o.speed
        &&& self.segment == o.segment
        &&& self.progress == o.progress
        &&& self.destination == o.destination
        &&& self.route@ == o.route@
        &&& self.idm == o.idm
        &&& self.gap == o.gap
        &&& self.length == o.length
        &&& self.width == o.width
        &&& self.braking == o.braking
        &&& self.player == o.player
    }
}

/// Sets the indicator of every vehicle by the turn ahead of it.
pub fn update_blinkers(vehicles: &mut Vec<Vehicle>, road: &Road)
    requires
        road.wf(),
        forall|i: int| 0 <= i < old(vehicles)@.len() ==> (#[trigger] old(vehicles)@[i]).wf(road),
    ensures
        final(vehicles)@.len() == old(vehicles)@.len(),
        forall|i: int|
            0 <= i < final(vehicles)@.len() ==> {
                &&& (#[trigger] final(vehicles)@[i]).same_but_blinker(&old(vehicles)@[i])
                &&& final(vehicles)@[i].blinker == old(vehicles)@[i].blinker_spec(road)
            },
        road.orderly(old(vehicles)@) ==> road.orderly(final(vehicles)@),
{
    let mut i: usize = 0;
    while i < vehicles.len()
        invariant
            road.wf(),
            i <= vehicles@.len(),
            vehicles@.len() == old(vehicles)@.len(),
            forall|j: int|
                0 <= j < old(vehicles)@.len() ==> (#[trigger] old(vehicles)@[j]).wf(road),
            forall|j: int|
                0 <= j < vehicles@.len() ==> {
                    &&& (#[trigger] vehicles@[j]).same_but_blinker(&old(vehicles)@[j])
                    &&& vehicles@[j].blinker == if j < i {
                        old(vehicles)@[j].blinker_spec(road)
                    } else {
                        old(vehicles)@[j].blinker
                    }
                },
        decreases vehicles@.len() - i,
    {
        proof {
            assert(old(vehicles)@[i as int].wf(road));
            assert(vehicles@[i as int].same_but_blinker(&old(vehicles)@[i as int]));
        }
        let vehicle = &vehicles[i];
        let blinker = if vehicle.progress < APPROACH_PROGRESS {
            Blinker::Off
        } else {
            match vehicle.next_segment() {
                Some(next) => {
                    proof {
                        assert(vehicle.route@[1].id < road.segments@.len());
                        assert(road.wired(vehicle.segment.id as int));
                        assert(road.wired(next.id as int));
                    }
                    let segment = road.segments.get(&vehicle.segment);
                    let from = road.nodes.get(&segment.from).position;
                    let to = road.nodes.get(&segment.to).position;
                    let beyond = road.nodes.get(&road.segments.get(&next).to).position;
                    indicated(to.minus(from).normalized(), beyond.minus(to).normalized())
                },
                None => Blinker::Off,
            }
        };
        vehicles[i].blinker = blinker;
        i += 1;
    }
    proof {
        if road.orderly(old(vehicles)@) {
            assert forall|j: int| 0 <= j < vehicles@.len() implies (
            #[trigger] vehicles@[j]).gap.arrival_order == old(vehicles)@[j].gap.arrival_order
                && vehicles@[j].route@ == old(vehicles)@[j].route@ by {
                assert(vehicles@[j].same_but_blinker(&old(vehicles)@[j]));
            }
            lemma_orderly_kept_and_grown(road, old(vehicles)@, vehicles@);
        }
    }
}

} // verus!

//! Gap acceptance: whether a vehicle that approaches an intersection may
//! enter it, or has to wait for others to pass.
//!
//! Gaps and times are in seconds, distances in metres, speeds in metres per
//! second.

use crate::arena::Id;
use crate::driver::idm::{blend_spec, blend_with};
use crate::driver::vehicle::Vehicle;
use crate::driver::yielding::{TurnType, YieldResolver, NO_ARRIVAL};
use crate::fixed::{
    add_spec, div_spec, fx_add, fx_div, fx_max, fx_min, fx_mul, fx_sub, max_spec, min_spec,
    mul_spec, sub_spec, LIMIT, ONE,
};
use crate::random::random_unit;
use crate::road::{lists, position_of, Intersection, Road, Segment};
use vstd::prelude::*;

verus! {

/// A vehicle that is closer than this to the entry of a path is yielded to,
/// whatever its speed: 3 m.
pub const MIN_SAFE_DISTANCE: i64 = 3_000_000;

/// An approaching vehicle is never taken to be slower than this: 0.1 m/s.
pub const SPEED_FLOOR: i64 = 100_000;

/// Gap acceptance starts in the second half of a segment.
pub const APPROACH_PROGRESS: i64 = 500_000;

/// What a vehicle knows of its standing at the intersection ahead.
#[derive(Clone, Copy, Debug, PartialEq, Eq, Structural)]
pub struct GapAcceptance {
    /// The smallest gap, in seconds, that the driver accepts.
    pub min_gap: i64,
    /// For how long the vehicle has been held back on this segment.
    pub waiting_time: Option<i64>,
    /// The order in which the vehicle reached the waiting zone of the
    /// intersection ahead; `NO_ARRIVAL` before it has.
    pub arrival_order: u64,
    /// The last check found the gap wide enough.
    pub cleared_to_go: bool,
}

impl GapAcceptance {
    pub open spec fn with_draw_spec(aggression: i64, draw: i64) -> GapAcceptance {
        GapAcceptance {
            min_gap: blend_spec(1_500_000, 1_000_000, aggression, 200_000, draw),
            waiting_time: None,
            arrival_order: NO_ARRIVAL,
            cleared_to_go: false,
        }
    }

    /// The standing of a vehicle that has met no intersection yet, for a
    /// driver of the given aggression whose smallest gap was moved by `draw`.
    pub fn with_draw(aggression: i64, draw: i64) -> (r: GapAcceptance)
        ensures
            r == GapAcceptance::with_draw_spec(aggression, draw),
    {
        GapAcceptance {
            min_gap: blend_with(1_500_000, 1_000_000, aggression, 200_000, draw),
            waiting_time: None,
            arrival_order: NO_ARRIVAL,
            cleared_to_go: false,
        }
    }

    /// The standing of a vehicle that has met no intersection yet, the
    /// smallest gap moved by chance.
    pub fn new(aggression: i64) -> (r: GapAcceptance)
        ensures
            exists|draw: i64|
                0 <= draw < ONE && r == #[trigger] GapAcceptance::with_draw_spec(aggression, draw),
    {
        GapAcceptance::with_draw(aggression, random_unit())
    }

    /// The time waited so far: none where the vehicle was not held back.
    pub open spec fn waited_spec(&self) -> i64 {
        match self.waiting_time {
            Some(t) => t,
            None => 0,
        }
    }

    pub fn waited(&self) -> (r: i64)
        ensures
            r == self.waited_spec(),
    {
        match self.waiting_time {
            Some(t) => t,
            None => 0,
        }
    }
}

impl Vehicle {
    /// The segment the vehicle takes after the one it is on.
    pub open spec fn next_spec(&self) -> Option<Id<Segment>> {
        if self.route@.len() > 1 {
            Some(self.route@[1])
        } else {
            None
        }
    }

    pub fn next_segment(&self) -> (r: Option<Id<Segment>>)
        ensures
            r == self.next_spec(),
    {
        if self.route.len() > 1 {
            Some(self.route[1])
        } else {
            None
        }
    }

    /// Equal but for the arrival order.
    pub open spec fn same_but_order(&self, o: &Vehicle) -> bool {
        &&& self.speed == o.speed
        &&& self.segment == o.segment
        &&& self.progress == o.progress
        &&& self.destination == o.destination
        &&& self.route@ == o.route@
        &&& self.idm == o.idm
        &&& self.gap.min_gap == o.gap.min_gap
        &&& self.gap.waiting_time == o.gap.waiting_time
        &&& self.gap.cleared_to_go == o.gap.cleared_to_go
        &&& self.length == o.length
        &&& self.width == o.width
        &&& self.blinker == o.blinker
        &&& self.braking == o.braking
        &&& self.player == o.player
    }
}

impl Road {
    /// The first intersection, from position `k` on, of which segment `s` is
    /// a path.
    pub open spec fn intersection_from_spec(&self, s: int, k: int) -> Option<int>
        decreases self.intersections@.len() - k,
    {
        if k < 0 || k >= self.intersections@.len() {
            None
        } else if lists(self.intersections@[k].incoming@, s) {
            Some(k)
        } else {
            self.intersection_from_spec(s, k + 1)
        }
    }

    /// The intersection that a vehicle is about to enter: the first of
    /// which the next segment of its route is a path.
    pub open spec fn ahead_spec(&self, vehicle: &Vehicle) -> Option<int> {
        match vehicle.next_spec() {
            Some(next) => self.intersection_from_spec(next.id as int, 0),
            None => None,
        }
    }

    /// The position found is an intersection.
    pub proof fn lemma_intersection_from(&self, s: int, k: int)
        requires
            0 <= k,
        ensures
            self.intersection_from_spec(s, k) matches Some(x) ==> k <= x
                < self.intersections@.len(),
        decreases self.intersections@.len() - k,
    {
        if k < self.intersections@.len() {
            self.lemma_intersection_from(s, k + 1);
        }
    }

    /// The first intersection of which `segment` is a path.
    pub fn intersection_of(&self, segment: Id<Segment>) -> (r: Option<Id<Intersection>>)
        ensures
            match r {
                Some(x) => self.intersection_from_spec(segment.id as int, 0) == Some(x.id as int)
                    && x.id < self.intersections@.len(),
                None => self.intersection_from_spec(segment.id as int, 0) is None,
            },
    {
        let mut k: usize = 0;
        while k < self.intersections.len()
            invariant
                k <= self.intersections@.len(),
                self.intersection_from_spec(segment.id as int, 0) == self.intersection_from_spec(
                    segment.id as int,
                    k as int,
                ),
            decreases self.intersections@.len() - k,
        {
            let id = Id::new(k);
            if position_of(&self.intersections.get(&id).incoming, segment).is_some() {
                return Some(id);
            }
            k += 1;
        }
        None
    }

    /// A vehicle that has an arrival order is about to enter an
    /// intersection that has handed out more orders than that; and no two
    /// vehicles about to enter the same intersection have the same order.
    pub open spec fn orderly(&self, vehicles: Seq<Vehicle>) -> bool {
        &&& forall|i: int|
            0 <= i < vehicles.len() && (#[trigger] vehicles[i]).gap.arrival_order != NO_ARRIVAL
                ==> (self.ahead_spec(&vehicles[i]) matches Some(x)
                && vehicles[i].gap.arrival_order < self.intersections@[x].arrival_counter)
        &&& forall|i: int, j: int|
            0 <= i < vehicles.len() && 0 <= j < vehicles.len() && i != j && (
            #[trigger] vehicles[i]).gap.arrival_order != NO_ARRIVAL && (
            #[trigger] vehicles[j]).gap.arrival_order != NO_ARRIVAL && self.ahead_spec(&vehicles[i])
                == self.ahead_spec(&vehicles[j]) ==> vehicles[i].gap.arrival_order
                != vehicles[j].gap.arrival_order
    }

    /// Equal but for the counters of the intersections, none of which has
    /// gone down.
    pub open spec fn counted_on(&self, before: &Road) -> bool {
        &&& self.nodes@ == before.nodes@
        &&& self.segments@ == before.segments@
        &&& self.intersections@.len() == before.intersections@.len()
        &&& forall|x: int|
            0 <= x < self.intersections@.len() ==> {
                &&& (#[trigger] self.intersections@[x]).same_place(&before.intersections@[x])
                &&& self.intersections@[x].conflicts@ == before.intersections@[x].conflicts@
                &&& self.intersections@[x].arrival_counter
                    >= before.intersections@[x].arrival_counter
            }
    }
}

/// Vehicles that come from vehicles in order, each from another one, with
/// the same route and the same arrival order or with none, are in order.
pub proof fn lemma_orderly_from(
    road: &Road,
    before: Seq<Vehicle>,
    after: Seq<Vehicle>,
    origin: Seq<int>,
)
    requires
        road.orderly(before),
        origin.len() == after.len(),
        forall|m: int| 0 <= m < origin.len() ==> 0 <= #[trigger] origin[m] < before.len(),
        forall|m: int, n: int| 0 <= m < n < origin.len() ==> origin[m] != origin[n],
        forall|m: int|
            0 <= m < after.len() ==> (#[trigger] after[m]).gap.arrival_order == NO_ARRIVAL || (
            after[m].gap.arrival_order == before[origin[m]].gap.arrival_order && after[m].route@
                == before[origin[m]].route@),
    ensures
        road.orderly(after),
{
    assert forall|m: int|
        0 <= m < after.len() && (#[trigger] after[m]).gap.arrival_order != NO_ARRIVAL implies (
    road.ahead_spec(&after[m]) matches Some(x) && after[m].gap.arrival_order
        < road.intersections@[x].arrival_counter) by {
        let i = origin[m];
        assert(before[i].gap.arrival_order != NO_ARRIVAL);
        assert(after[m].next_spec() == before[i].next_spec());
    }
    assert forall|m: int, n: int|
        0 <= m < after.len() && 0 <= n < after.len() && m != n && (
        #[trigger] after[m]).gap.arrival_order != NO_ARRIVAL && (
        #[trigger] after[n]).gap.arrival_order != NO_ARRIVAL && road.ahead_spec(&after[m])
            == road.ahead_spec(&after[n]) implies after[m].gap.arrival_order
        != after[n].gap.arrival_order by {
        let i = origin[m];
        let j = origin[n];
        assert(i != j);
        assert(before[i].gap.arrival_order != NO_ARRIVAL);
        assert(before[j].gap.arrival_order != NO_ARRIVAL);
        assert(after[m].next_spec() == before[i].next_spec());
        assert(after[n].next_spec() == before[j].next_spec());
    }
}

/// Vehicles that are as vehicles in order were, but for what has no part in
/// the order, and more vehicles without an arrival order after them, are in
/// order.
pub proof fn lemma_orderly_kept_and_grown(road: &Road, before: Seq<Vehicle>, after: Seq<Vehicle>)
    requires
        road.orderly(before),
        after.len() >= before.len(),
        forall|i: int|
            0 <= i < before.len() ==> (#[trigger] after[i]).gap.arrival_order
                == before[i].gap.arrival_order && after[i].route@ == before[i].route@,
        forall|i: int|
            before.len() <= i < after.len() ==> (#[trigger] after[i]).gap.arrival_order
                == NO_ARRIVAL,
    ensures
        road.orderly(after),
{
    assert forall|m: int|
        0 <= m < after.len() && (#[trigger] after[m]).gap.arrival_order != NO_ARRIVAL implies (
    road.ahead_spec(&after[m]) matches Some(x) && after[m].gap.arrival_order
        < road.intersections@[x].arrival_counter) by {
        assert(before[m].gap.arrival_order != NO_ARRIVAL);
        assert(after[m].next_spec() == before[m].next_spec());
    }
    assert forall|m: int, n: int|
        0 <= m < after.len() && 0 <= n < after.len() && m != n && (
        #[trigger] after[m]).gap.arrival_order != NO_ARRIVAL && (
        #[trigger] after[n]).gap.arrival_order != NO_ARRIVAL && road.ahead_spec(&after[m])
            == road.ahead_spec(&after[n]) implies after[m].gap.arrival_order
        != after[n].gap.arrival_order by {
        assert(before[m].gap.arrival_order != NO_ARRIVAL);
        assert(before[n].gap.arrival_order != NO_ARRIVAL);
        assert(after[m].next_spec() == before[m].next_spec());
        assert(after[n].next_spec() == before[n].next_spec());
    }
}

/// Whether the vehicle is to be given an arrival order: it has none and is
/// in the second half of its segment.
pub open spec fn wants_order(vehicle: &Vehicle) -> bool {
    vehicle.progress > APPROACH_PROGRESS && vehicle.gap.arrival_order == NO_ARRIVAL
}

impl Road {
    /// Whether vehicle `vehicle` is given an order of intersection `x`,
    /// where the intersection has handed out `given` orders in this round
    /// already: it wants one, is about to enter that intersection, and the
    /// counter of the intersection is not exhausted.
    pub open spec fn serves(&self, vehicle: &Vehicle, x: int, given: int) -> bool {
        &&& wants_order(vehicle)
        &&& self.ahead_spec(vehicle) == Some(x)
        &&& self.intersections@[x].arrival_counter + given < NO_ARRIVAL
    }

    /// The number of orders that intersection `x` hands out to the first
    /// `k` of `vehicles`.
    pub open spec fn given_spec(&self, vehicles: Seq<Vehicle>, x: int, k: int) -> int
        decreases k,
    {
        if k <= 0 {
            0
        } else {
            let before = self.given_spec(vehicles, x, k - 1);
            if self.serves(&vehicles[k - 1], x, before) {
                before + 1
            } else {
                before
            }
        }
    }
}

/// What the handing out of arrival orders to the first `count` vehicles
/// makes of the vehicles and the road.
///
/// The road is as before but for the counters, each of which has gone up
/// by the number of orders handed out. Each vehicle is as before but for
/// its order: a vehicle that wanted an order and is about to enter an
/// intersection whose counter is not exhausted has got the order that the
/// counter showed when its turn came, in the order of the list.
pub open spec fn arrivals_assigned(
    before: Seq<Vehicle>,
    road_before: &Road,
    after: Seq<Vehicle>,
    road_after: &Road,
    count: int,
) -> bool {
    &&& road_after.counted_on(road_before)
    &&& after.len() == before.len()
    &&& forall|x: int|
        0 <= x < road_after.intersections@.len() ==> (
        #[trigger] road_after.intersections@[x]).arrival_counter
            == road_before.intersections@[x].arrival_counter + road_before.given_spec(
            before,
            x,
            count,
        )
    &&& forall|i: int|
        0 <= i < after.len() ==> {
            &&& (#[trigger] after[i]).same_but_order(&before[i])
            &&& after[i].gap.arrival_order == match road_before.ahead_spec(&before[i]) {
                Some(x) => if i < count && road_before.serves(
                    &before[i],
                    x,
                    road_before.given_spec(before, x, i),
                ) {
                    (road_before.intersections@[x].arrival_counter + road_before.given_spec(
                        before,
                        x,
                        i,
                    )) as u64
                } else {
                    before[i].gap.arrival_order
                },
                None => before[i].gap.arrival_order,
            }
        }
}

/// The intersection ahead of a vehicle depends on its route and on the
/// paths of the intersections alone.
pub proof fn lemma_same_ahead(one: &Road, other: &Road, a: &Vehicle, b: &Vehicle)
    requires
        other.counted_on(one),
        a.route@ == b.route@,
    ensures
        one.ahead_spec(a) == other.ahead_spec(b),
{
    match a.next_spec() {
        Some(next) => {
            lemma_same_intersection(one, other, next.id as int, 0);
        },
        None => {},
    }
}

proof fn lemma_same_intersection(one: &Road, other: &Road, s: int, k: int)
    requires
        other.counted_on(one),
        0 <= k,
    ensures
        one.intersection_from_spec(s, k) == other.intersection_from_spec(s, k),
    decreases one.intersections@.len() - k,
{
    if k < one.intersections@.len() {
        lemma_same_intersection(one, other, s, k + 1);
    }
}

/// Hands out arrival orders: each vehicle in the second half of its segment
/// that has none and is about to enter an intersection gets the next one of
/// that intersection.
#[verifier::rlimit(40)]
pub fn assign_arrivals(vehicles: &mut Vec<Vehicle>, road: &mut Road)
    ensures
        arrivals_assigned(
            old(vehicles)@,
            old(road),
            final(vehicles)@,
            final(road),
            old(vehicles)@.len() as int,
        ),
        old(road).wf() ==> final(road).wf(),
        old(road).orderly(old(vehicles)@) ==> final(road).orderly(final(vehicles)@),
{
    let mut i: usize = 0;
    while i < vehicles.len()
        invariant
            i <= vehicles@.len(),
            arrivals_assigned(old(vehicles)@, old(road), vehicles@, road, i as int),
            old(road).wf() ==> road.wf(),
            old(road).orderly(old(vehicles)@) ==> road.orderly(vehicles@),
        decreases vehicles@.len() - i,
    {
        let ghost before = vehicles@;
        let ghost road_before = *road;
        let ghost mut served = false;
        proof {
            lemma_same_ahead(old(road), road, &old(vehicles)@[i as int], &vehicles@[i as int]);
            assert(vehicles@[i as int].same_but_order(&old(vehicles)@[i as int]));
        }
        if vehicles[i].progress > APPROACH_PROGRESS && vehicles[i].gap.arrival_order == NO_ARRIVAL {
            match vehicles[i].next_segment() {
                Some(next) => match road.intersection_of(next) {
                    Some(x) => {
                        let counter = road.intersections.get(&x).arrival_counter;
                        if counter < NO_ARRIVAL {
                            vehicles[i].gap.arrival_order = counter;
                            road.intersections.get_mut(&x).arrival_counter = counter + 1;
                            proof {
                                served = true;
                                lemma_assigned(
                                    old(vehicles)@,
                                    old(road),
                                    before,
                                    &road_before,
                                    vehicles@,
                                    road,
                                    i as int,
                                    x.id as int,
                                );
                            }
                        }
                    },
                    None => {},
                },
                None => {},
            }
        }
        proof {
            if !served {
                lemma_passed_over(old(vehicles)@, old(road), vehicles@, road, i as int);
            }
        }
        i += 1;
    }
}

/// A vehicle that is given no order leaves the vehicles and the road as
/// they are.
proof fn lemma_passed_over(
    first: Seq<Vehicle>,
    road_first: &Road,
    now: Seq<Vehicle>,
    road_now: &Road,
    i: int,
)
    requires
        0 <= i < now.len(),
        arrivals_assigned(first, road_first, now, road_now, i),
        match road_first.ahead_spec(&first[i]) {
            Some(x) => !wants_order(&first[i]) || road_now.intersections@[x].arrival_counter
                >= NO_ARRIVAL,
            None => true,
        },
    ensures
        arrivals_assigned(first, road_first, now, road_now, i + 1),
{
    match first[i].next_spec() {
        Some(next) => {
            road_first.lemma_intersection_from(next.id as int, 0);
        },
        None => {},
    }
    assert forall|x: int| 0 <= x < road_now.intersections@.len() implies (
    #[trigger] road_now.intersections@[x]).arrival_counter
        == road_first.intersections@[x].arrival_counter + road_first.given_spec(
        first,
        x,
        i + 1,
    ) by {
        assert(road_first.given_spec(first, x, i + 1) == road_first.given_spec(first, x, i));
    }
}

/// One more order handed out keeps what the orders handed out before
/// promise.
#[verifier::rlimit(40)]
proof fn lemma_assigned(
    first: Seq<Vehicle>,
    road_first: &Road,
    before: Seq<Vehicle>,
    road_before: &Road,
    after: Seq<Vehicle>,
    road_after: &Road,
    i: int,
    x: int,
)
    requires
        0 <= i < before.len(),
        arrivals_assigned(first, road_first, before, road_before, i),
        road_first.wf() ==> road_before.wf(),
        road_first.orderly(first) ==> road_before.orderly(before),
        wants_order(&before[i]),
        road_before.ahead_spec(&before[i]) == Some(x),
        0 <= x < road_before.intersections@.len(),
        road_before.intersections@[x].arrival_counter < NO_ARRIVAL,
        after.len() == before.len(),
        forall|j: int| 0 <= j < after.len() && j != i ==> after[j] == before[j],
        after[i].same_but_order(&before[i]),
        after[i].gap.arrival_order == road_before.intersections@[x].arrival_counter,
        road_after.nodes@ == road_before.nodes@,
        road_after.segments@ == road_before.segments@,
        road_after.intersections@.len() == road_before.intersections@.len(),
        forall|y: int|
            0 <= y < road_after.intersections@.len() && y != x ==> road_after.intersections@[y]
                == road_before.intersections@[y],
        road_after.intersections@[x].same_place(&road_before.intersections@[x]),
        road_after.intersections@[x].conflicts@ == road_before.intersections@[x].conflicts@,
        road_after.intersections@[x].arrival_counter == road_before.intersections@[x].arrival_counter
            + 1,
    ensures
        arrivals_assigned(first, road_first, after, road_after, i + 1),
        road_first.wf() ==> road_after.wf(),
        road_first.orderly(first) ==> road_after.orderly(after),
{
    assert(road_after.counted_on(road_before));
    assert(road_after.counted_on(road_first));
    lemma_same_ahead(road_first, road_before, &first[i], &before[i]);
    assert(before[i].same_but_order(&first[i]));
    assert(road_first.serves(&first[i], x, road_first.given_spec(first, x, i)));
    assert forall|y: int| 0 <= y < road_after.intersections@.len() implies (
    #[trigger] road_after.intersections@[y]).arrival_counter
        == road_first.intersections@[y].arrival_counter + road_first.given_spec(
        first,
        y,
        i + 1,
    ) by {
        assert(road_before.intersections@[y].arrival_counter
            == road_first.intersections@[y].arrival_counter + road_first.given_spec(first, y, i));
    }
    assert forall|j: int| 0 <= j < after.len() implies {
        &&& (#[trigger] after[j]).same_but_order(&first[j])
        &&& after[j].gap.arrival_order == match road_first.ahead_spec(&first[j]) {
            Some(y) => if j < i + 1 && road_first.serves(
                &first[j],
                y,
                road_first.given_spec(first, y, j),
            ) {
                (road_first.intersections@[y].arrival_counter + road_first.given_spec(
                    first,
                    y,
                    j,
                )) as u64
            } else {
                first[j].gap.arrival_order
            },
            None => first[j].gap.arrival_order,
        }
    } by {
        assert(before[j].same_but_order(&first[j]));
    }
    if road_first.wf() {
        assert forall|s: int| 0 <= s < road_after.segments@.len() implies road_after.wired(s) by {
            assert(road_before.wired(s));
        }
        assert forall|y: int| 0 <= y < road_after.intersections@.len() implies (
        #[trigger] road_after.intersections@[y]).wf(
            road_after.nodes@.len() as int,
            road_after.segments@.len() as int,
        ) by {
            let was = road_before.intersections@[y];
            let now = road_after.intersections@[y];
            assert(was.wf(road_before.nodes@.len() as int, road_before.segments@.len() as int));
            if y == x {
                assert forall|k: int| 0 <= k < now.conflicts@.len() implies now.conflicting(
                    (#[trigger] now.conflicts@[k]).1.id as int,
                    now.conflicts@[k].0.id as int,
                ) by {
                    assert(was.conflicting(
                        was.conflicts@[k].1.id as int,
                        was.conflicts@[k].0.id as int,
                    ));
                    let m = choose|m: int|
                        0 <= m < was.conflicts@.len() && (#[trigger] was.conflicts@[m]).0.id
                            == was.conflicts@[k].1.id && was.conflicts@[m].1.id
                            == was.conflicts@[k].0.id;
                    assert(now.conflicts@[m] == was.conflicts@[m]);
                }
            }
        }
    }
    if road_first.orderly(first) {
        assert forall|j: int|
            0 <= j < after.len() && (#[trigger] after[j]).gap.arrival_order
                != NO_ARRIVAL implies (road_after.ahead_spec(&after[j]) matches Some(y)
            && after[j].gap.arrival_order < road_after.intersections@[y].arrival_counter) by {
            lemma_same_ahead(road_before, road_after, &before[j], &after[j]);
            match before[j].next_spec() {
                Some(next) => {
                    road_before.lemma_intersection_from(next.id as int, 0);
                },
                None => {},
            }
            if j != i {
                assert(before[j].gap.arrival_order != NO_ARRIVAL);
            }
        }
        assert forall|j: int, k: int|
            0 <= j < after.len() && 0 <= k < after.len() && j != k && (
            #[trigger] after[j]).gap.arrival_order != NO_ARRIVAL && (
            #[trigger] after[k]).gap.arrival_order != NO_ARRIVAL && road_after.ahead_spec(&after[j])
                == road_after.ahead_spec(&after[k]) implies after[j].gap.arrival_order
            != after[k].gap.arrival_order by {
            lemma_same_ahead(road_before, road_after, &before[j], &after[j]);
            lemma_same_ahead(road_before, road_after, &before[k], &after[k]);
            if j == i {
                assert(before[k].gap.arrival_order != NO_ARRIVAL);
            } else if k == i {
                assert(before[j].gap.arrival_order != NO_ARRIVAL);
            } else {
                assert(before[j].gap.arrival_order != NO_ARRIVAL);
                assert(before[k].gap.arrival_order != NO_ARRIVAL);
            }
        }
    }
}

/// What gap acceptance reads of a vehicle, taken before any decision.
#[derive(Clone, Copy, Debug)]
pub struct Snapshot {
    pub segment: Id<Segment>,
    pub next: Option<Id<Segment>>,
    pub progress: i64,
    pub speed: i64,
    pub length: i64,
    pub waiting_time: i64,
    pub arrival_order: u64,
}

impl Snapshot {
    /// Whether the segments named are segments of a network of `count`
    /// segments.
    pub open spec fn wf(&self, count: int) -> bool {
        &&& self.segment.id < count
        &&& self.next matches Some(n) ==> n.id < count
    }
}

impl Vehicle {
    pub open spec fn snapshot_spec(&self) -> Snapshot {
        Snapshot {
            segment: self.segment,
            next: self.next_spec(),
            progress: self.progress,
            speed: self.speed,
            length: self.length,
            waiting_time: self.gap.waited_spec(),
            arrival_order: self.gap.arrival_order,
        }
    }

    pub fn snapshot(&self) -> (r: Snapshot)
        ensures
            r == self.snapshot_spec(),
    {
        Snapshot {
            segment: self.segment,
            next: self.next_segment(),
            progress: self.progress,
            speed: self.speed,
            length: self.length,
            waiting_time: self.gap.waited(),
            arrival_order: self.gap.arrival_order,
        }
    }
}

/// The snapshots of the vehicles, in the order of the list.
pub open spec fn snapshots_spec(vehicles: Seq<Vehicle>) -> Seq<Snapshot> {
    Seq::new(vehicles.len(), |i: int| vehicles[i].snapshot_spec())
}

pub fn take_snapshots(vehicles: &Vec<Vehicle>) -> (r: Vec<Snapshot>)
    ensures
        r@ == snapshots_spec(vehicles@),
{
    let mut out: Vec<Snapshot> = Vec::new();
    let mut i: usize = 0;
    while i < vehicles.len()
        invariant
            i <= vehicles@.len(),
            out@.len() == i,
            forall|k: int| 0 <= k < i ==> out@[k] == (#[trigger] vehicles@[k]).snapshot_spec(),
        decreases vehicles@.len() - i,
    {
        out.push(vehicles[i].snapshot());
        i += 1;
    }
    proof {
        assert(out@ =~= snapshots_spec(vehicles@));
    }
    out
}

impl Road {
    /// Whether a vehicle on the conflicting path `occupied` keeps others
    /// from entering `next`: always at a plain intersection; on a
    /// roundabout only a vehicle on the circle keeps one from entering it.
    pub open spec fn blocked_spec(&self, resolver: YieldResolver, next: int, occupied: int) -> bool {
        match resolver {
            YieldResolver::RightOfWay => true,
            YieldResolver::Roundabout => self.segments@[next].turn_type is RoundaboutEntry
                && self.segments@[occupied].turn_type is RoundaboutCircle,
        }
    }

    /// How far the front of the vehicle is from the end of its segment, and
    /// not less than nothing.
    pub open spec fn distance_to_end_spec(&self, segment: int, progress: i64, length: i64) -> i64 {
        max_spec(
            sub_spec(
                mul_spec(sub_spec(ONE, progress), self.segments@[segment].length),
                div_spec(length, 2_000_000),
            ),
            0,
        )
    }

    /// The gap, in seconds, that the other vehicle leaves to one that is
    /// about to enter path `next` of intersection `x`; `LIMIT` where it
    /// leaves any.
    ///
    /// A vehicle on a path that crosses `next` leaves none where it blocks.
    /// A vehicle about to enter such a path leaves any gap where it has to
    /// yield; else none where it is close to its entry or a heading is not
    /// on record, and else the time it takes to its entry.
    pub open spec fn threat_spec(&self, x: &Intersection, next: int, mine: Snapshot, other: Snapshot) -> i64 {
        if x.conflicting(next, other.segment.id as int) {
            if self.blocked_spec(x.yield_resolver, next, other.segment.id as int) {
                0
            } else {
                LIMIT
            }
        } else {
            match other.next {
                Some(theirs) => if x.conflicting(next, theirs.id as int) {
                    match (x.direction_of_spec(next), x.direction_of_spec(theirs.id as int)) {
                        (Some(my_direction), Some(their_direction)) => if x.yield_resolver.has_priority_spec(
                            self.segments@[next].turn_type,
                            my_direction,
                            mine.arrival_order,
                            mine.waiting_time,
                            self.segments@[theirs.id as int].turn_type,
                            their_direction,
                            other.arrival_order,
                            other.waiting_time,
                        ) {
                            LIMIT
                        } else {
                            let distance = self.distance_to_end_spec(
                                other.segment.id as int,
                                other.progress,
                                other.length,
                            );
                            if distance < MIN_SAFE_DISTANCE {
                                0
                            } else {
                                div_spec(distance, max_spec(other.speed, SPEED_FLOOR))
                            }
                        },
                        _ => 0,
                    }
                } else {
                    LIMIT
                },
                None => LIMIT,
            }
        }
    }

    /// The gap left to vehicle `me` at intersection `x` by the first `j`
    /// vehicles, where the gap was `start` before any of them was looked
    /// at. A gap of nothing stays nothing.
    pub open spec fn gap_at_spec(
        &self,
        x: &Intersection,
        next: int,
        me: int,
        snapshots: Seq<Snapshot>,
        j: int,
        start: i64,
    ) -> i64
        decreases j,
    {
        if j <= 0 {
            start
        } else {
            let before = self.gap_at_spec(x, next, me, snapshots, j - 1, start);
            if j - 1 == me || before == 0 {
                before
            } else {
                min_spec(before, self.threat_spec(x, next, snapshots[me], snapshots[j - 1]))
            }
        }
    }

    /// The gap left to vehicle `me`, which is about to enter `next`, at the
    /// first `i` intersections: at those of which `next` is a path, by all
    /// other vehicles.
    pub open spec fn gap_spec(&self, next: int, me: int, snapshots: Seq<Snapshot>, i: int) -> i64
        decreases i,
    {
        if i <= 0 {
            LIMIT
        } else {
            let before = self.gap_spec(next, me, snapshots, i - 1);
            if lists(self.intersections@[i - 1].incoming@, next) {
                self.gap_at_spec(
                    &self.intersections@[i - 1],
                    next,
                    me,
                    snapshots,
                    snapshots.len() as int,
                    before,
                )
            } else {
                before
            }
        }
    }

    pub fn distance_to_end(&self, segment: Id<Segment>, progress: i64, length: i64) -> (r: i64)
        requires
            segment.id < self.segments@.len(),
        ensures
            r == self.distance_to_end_spec(segment.id as int, progress, length),
            r >= 0,
    {
        fx_max(
            fx_sub(
                fx_mul(fx_sub(ONE, progress), self.segments.get(&segment).length),
                fx_div(length, 2_000_000),
            ),
            0,
        )
    }

    /// The gap that `other` leaves to a vehicle about to enter `next`.
    pub fn threat(&self, x: &Intersection, next: Id<Segment>, mine: &Snapshot, other: &Snapshot) -> (r: i64)
        requires
            next.id < self.segments@.len(),
            other.wf(self.segments@.len() as int),
        ensures
            r == self.threat_spec(x, next.id as int, *mine, *other),
    {
        if x.has_conflict(next, other.segment) {
            let blocked = match x.yield_resolver {
                YieldResolver::RightOfWay => true,
                YieldResolver::Roundabout => match (
                    self.segments.get(&next).turn_type,
                    self.segments.get(&other.segment).turn_type,
                ) {
                    (TurnType::RoundaboutEntry, TurnType::RoundaboutCircle) => true,
                    _ => false,
                },
            };
            if blocked {
                0
            } else {
                LIMIT
            }
        } else {
            match other.next {
                Some(theirs) => if x.has_conflict(next, theirs) {
                    match (x.direction_of(next), x.direction_of(theirs)) {
                        (Some(my_direction), Some(their_direction)) => if x.yield_resolver.has_priority(
                            self.segments.get(&next).turn_type,
                            my_direction,
                            mine.arrival_order,
                            mine.waiting_time,
                            self.segments.get(&theirs).turn_type,
                            their_direction,
                            other.arrival_order,
                            other.waiting_time,
                        ) {
                            LIMIT
                        } else {
                            let distance = self.distance_to_end(
                                other.segment,
                                other.progress,
                                other.length,
                            );
                            if distance < MIN_SAFE_DISTANCE {
                                0
                            } else {
                                fx_div(distance, fx_max(other.speed, SPEED_FLOOR))
                            }
                        },
                        _ => 0,
                    }
                } else {
                    LIMIT
                },
                None => LIMIT,
            }
        }
    }

    /// The gap left to vehicle `me`, which is about to enter `next`, by
    /// all other vehicles at all intersections of which `next` is a path.
    pub fn actual_gap(&self, next: Id<Segment>, me: usize, snapshots: &Vec<Snapshot>) -> (r: i64)
        requires
            next.id < self.segments@.len(),
            me < snapshots@.len(),
            forall|j: int|
                0 <= j < snapshots@.len() ==> (#[trigger] snapshots@[j]).wf(
                    self.segments@.len() as int,
                ),
        ensures
            r == self.gap_spec(
                next.id as int,
                me as int,
                snapshots@,
                self.intersections@.len() as int,
            ),
    {
        let mut gap: i64 = LIMIT;
        let mut i: usize = 0;
        while i < self.intersections.len()
            invariant
                i <= self.intersections@.len(),
                next.id < self.segments@.len(),
                me < snapshots@.len(),
                forall|j: int|
                    0 <= j < snapshots@.len() ==> (#[trigger] snapshots@[j]).wf(
                        self.segments@.len() as int,
                    ),
                gap == self.gap_spec(next.id as int, me as int, snapshots@, i as int),
            decreases self.intersections@.len() - i,
        {
            let x = self.intersections.get(&Id::new(i));
            if position_of(&x.incoming, next).is_some() {
                let ghost start = gap;
                let mut j: usize = 0;
                while j < snapshots.len()
                    invariant
                        j <= snapshots@.len(),
                        i < self.intersections@.len(),
                        *x == self.intersections@[i as int],
                        next.id < self.segments@.len(),
                        me < snapshots@.len(),
                        forall|k: int|
                            0 <= k < snapshots@.len() ==> (#[trigger] snapshots@[k]).wf(
                                self.segments@.len() as int,
                            ),
                        gap == self.gap_at_spec(
                            x,
                            next.id as int,
                            me as int,
                            snapshots@,
                            j as int,
                            start,
                        ),
                    decreases snapshots@.len() - j,
                {
                    if j != me && gap != 0 {
                        gap = fx_min(gap, self.threat(x, next, &snapshots[me], &snapshots[j]));
                    }
                    j += 1;
                }
            }
            i += 1;
        }
        gap
    }
}

impl GapAcceptance {
    /// What a check that found the gap `gap` makes of the standing: where
    /// the gap is smaller than the driver accepts, the vehicle is held back
    /// and has waited `dt` longer; else it is cleared to go, and what it has
    /// waited is kept.
    pub open spec fn decided_spec(&self, gap: i64, dt: i64) -> GapAcceptance {
        if gap < self.min_gap {
            GapAcceptance {
                waiting_time: Some(add_spec(self.waited_spec(), dt)),
                cleared_to_go: false,
                ..*self
            }
        } else {
            GapAcceptance { cleared_to_go: true, ..*self }
        }
    }

    pub fn decided(&self, gap: i64, dt: i64) -> (r: GapAcceptance)
        ensures
            r == self.decided_spec(gap, dt),
    {
        if gap < self.min_gap {
            GapAcceptance {
                min_gap: self.min_gap,
                waiting_time: Some(fx_add(self.waited(), dt)),
                arrival_order: self.arrival_order,
                cleared_to_go: false,
            }
        } else {
            GapAcceptance {
                min_gap: self.min_gap,
                waiting_time: self.waiting_time,
                arrival_order: self.arrival_order,
                cleared_to_go: true,
            }
        }
    }
}

impl Vehicle {
    /// Equal but for the standing at the intersection ahead.
    pub open spec fn same_but_gap(&self, o: &Vehicle) -> bool {
        &&& self.speed == o.speed
        &&& self.segment == o.segment
        &&& self.progress == o.progress
        &&& self.destination == o.destination
        &&& self.route@ == o.route@
        &&& self.idm == o.idm
        &&& self.length == o.length
        &&& self.width == o.width
        &&& self.blinker == o.blinker
        &&& self.braking == o.braking
        &&& self.player == o.player
    }
}

/// The standing of vehicle `i` after the check: a vehicle in the second
/// half of its segment that has a segment to go on to is checked against
/// the gap left to it; the others are left as they are.
pub open spec fn checked_spec(road: &Road, vehicles: Seq<Vehicle>, i: int, dt: i64) -> GapAcceptance {
    let vehicle = vehicles[i];
    match vehicle.next_spec() {
        Some(next) => if vehicle.progress > APPROACH_PROGRESS {
            vehicle.gap.decided_spec(
                road.gap_spec(
                    next.id as int,
                    i,
                    snapshots_spec(vehicles),
                    road.intersections@.len() as int,
                ),
                dt,
            )
        } else {
            vehicle.gap
        },
        None => vehicle.gap,
    }
}

/// What the check of the gaps makes of the vehicles: each is as before but
/// for its standing, which is what the check gives on the vehicles as they
/// were before any of them was checked.
pub open spec fn gaps_decided(
    road: &Road,
    before: Seq<Vehicle>,
    after: Seq<Vehicle>,
    dt: i64,
    count: int,
) -> bool {
    &&& after.len() == before.len()
    &&& forall|i: int|
        0 <= i < after.len() ==> {
            &&& (#[trigger] after[i]).same_but_gap(&before[i])
            &&& after[i].gap == if i < count {
                checked_spec(road, before, i, dt)
            } else {
                before[i].gap
            }
        }
}

/// Checks the gap of every vehicle that approaches an intersection, against
/// the vehicles as they stand when the check begins.
pub fn decide_gaps(dt: i64, vehicles: &mut Vec<Vehicle>, road: &Road)
    requires
        forall|i: int| 0 <= i < old(vehicles)@.len() ==> (#[trigger] old(vehicles)@[i]).wf(road),
    ensures
        gaps_decided(road, old(vehicles)@, final(vehicles)@, dt, old(vehicles)@.len() as int),
{
    let snapshots = take_snapshots(vehicles);
    let mut i: usize = 0;
    proof {
        assert forall|j: int| 0 <= j < snapshots@.len() implies (#[trigger] snapshots@[j]).wf(
            road.segments@.len() as int,
        ) by {
            assert(old(vehicles)@[j].wf(road));
        }
    }
    while i < vehicles.len()
        invariant
            i <= vehicles@.len(),
            snapshots@ == snapshots_spec(old(vehicles)@),
            forall|j: int|
                0 <= j < old(vehicles)@.len() ==> (#[trigger] old(vehicles)@[j]).wf(road),
            forall|j: int|
                0 <= j < snapshots@.len() ==> (#[trigger] snapshots@[j]).wf(
                    road.segments@.len() as int,
                ),
            gaps_decided(road, old(vehicles)@, vehicles@, dt, i as int),
        decreases vehicles@.len() - i,
    {
        proof {
            assert(old(vehicles)@[i as int].wf(road));
            assert(vehicles@[i as int].same_but_gap(&old(vehicles)@[i as int]));
        }
        if vehicles[i].progress > APPROACH_PROGRESS {
            match vehicles[i].next_segment() {
                Some(next) => {
                    let gap = road.actual_gap(next, i, &snapshots);
                    let standing = vehicles[i].gap.decided(gap, dt);
                    vehicles[i].gap = standing;
                },
                None => {},
            }
        }
        i += 1;
    }
}

/// Gap acceptance for one tick of `dt` seconds: hands out arrival orders,
/// then checks the gap of every vehicle that approaches an intersection.
pub fn apply_gap_acceptance(dt: i64, vehicles: &mut Vec<Vehicle>, road: &mut Road)
    requires
        forall|i: int|
            0 <= i < old(vehicles)@.len() ==> (#[trigger] old(vehicles)@[i]).wf(old(road)),
    ensures
        exists|ordered: Seq<Vehicle>|
            {
                &&& #[trigger] arrivals_assigned(
                    old(vehicles)@,
                    old(road),
                    ordered,
                    final(road),
                    old(vehicles)@.len() as int,
                )
                &&& gaps_decided(
                    final(road),
                    ordered,
                    final(vehicles)@,
                    dt,
                    old(vehicles)@.len() as int,
                )
            },
        old(road).wf() ==> final(road).wf(),
        old(road).orderly(old(vehicles)@) ==> final(road).orderly(final(vehicles)@),
        forall|i: int|
            0 <= i < final(vehicles)@.len() ==> (#[trigger] final(vehicles)@[i]).wf(final(road)),
{
    assign_arrivals(vehicles, road);
    let ghost ordered = vehicles@;
    proof {
        assert forall|i: int| 0 <= i < ordered.len() implies (#[trigger] ordered[i]).wf(road) by {
            assert(old(vehicles)@[i].wf(old(road)));
            assert(ordered[i].same_but_order(&old(vehicles)@[i]));
        }
    }
    decide_gaps(dt, vehicles, road);
    proof {
        assert forall|i: int| 0 <= i < vehicles@.len() implies (#[trigger] vehicles@[i]).wf(
            road,
        ) by {
            assert(ordered[i].wf(road));
            assert(vehicles@[i].same_but_gap(&ordered[i]));
        }
        if old(road).orderly(old(vehicles)@) {
            lemma_orderly_kept(road, ordered, vehicles@, dt);
        }
    }
}

/// The check of the gaps changes no arrival order and no route.
proof fn lemma_orderly_kept(road: &Road, before: Seq<Vehicle>, after: Seq<Vehicle>, dt: i64)
    requires
        road.orderly(before),
        gaps_decided(road, before, after, dt, before.len() as int),
    ensures
        road.orderly(after),
{
    assert forall|i: int| 0 <= i < after.len() implies (#[trigger] after[i]).gap.arrival_order
        == before[i].gap.arrival_order && road.ahead_spec(&after[i]) == road.ahead_spec(
        &before[i],
    ) by {
        assert(after[i].same_but_gap(&before[i]));
        assert(after[i].next_spec() == before[i].next_spec());
    }
    assert forall|i: int|
        0 <= i < after.len() && (#[trigger] after[i]).gap.arrival_order != NO_ARRIVAL implies (
    road.ahead_spec(&after[i]) matches Some(x) && after[i].gap.arrival_order
        < road.intersections@[x].arrival_counter) by {
        assert(before[i].gap.arrival_order != NO_ARRIVAL);
    }
    assert forall|i: int, j: int|
        0 <= i < after.len() && 0 <= j < after.len() && i != j && (
        #[trigger] after[i]).gap.arrival_order != NO_ARRIVAL && (
        #[trigger] after[j]).gap.arrival_order != NO_ARRIVAL && road.ahead_spec(&after[i])
            == road.ahead_spec(&after[j]) implies after[i].gap.arrival_order
        != after[j].gap.arrival_order by {
        assert(before[i].gap.arrival_order != NO_ARRIVAL);
        assert(before[j].gap.arrival_order != NO_ARRIVAL);
    }
}

} // verus!

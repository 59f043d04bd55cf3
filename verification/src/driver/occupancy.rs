//! Which vehicles are on which segment, in the order in which they drive,
//! and which vehicle drives ahead of a given one.

use crate::arena::Id;
use crate::driver::vehicle::Vehicle;
use crate::fixed::{add_spec, fx_add, fx_mul, fx_sub, mul_spec, sub_spec, ONE};
use crate::road::{Road, Segment};
use vstd::prelude::*;

verus! {

/// The search for the vehicle ahead looks at this many segments at most.
pub const HORIZON: usize = 10;

/// A vehicle on a segment, as it was when the index was built.
#[derive(Clone, Copy, Debug)]
pub struct Occupant {
    pub progress: i64,
    /// The position of the vehicle in the list of vehicles.
    pub vehicle: usize,
    pub speed: i64,
    pub segment: Id<Segment>,
}

/// For each segment, by its index, the vehicles on it in ascending order of
/// their progress.
#[derive(Debug)]
pub struct SegmentOccupancy {
    pub vehicles: Vec<Vec<Occupant>>,
}

impl Occupant {
    /// Whether the occupant is vehicle `self.vehicle` of `vehicles`, as it
    /// stands, on segment `s`.
    pub open spec fn mirrors(&self, vehicles: Seq<Vehicle>, s: int) -> bool {
        &&& self.vehicle < vehicles.len()
        &&& vehicles[self.vehicle as int].segment.id == s
        &&& self.segment.id == s
        &&& self.progress == vehicles[self.vehicle as int].progress
        &&& self.speed == vehicles[self.vehicle as int].speed
    }
}

/// Whether the occupants are in ascending order of their progress, and
/// those at the same progress in ascending order of their positions in the
/// list of vehicles. No vehicle occurs twice in such an order.
pub open spec fn in_order(bucket: Seq<Occupant>) -> bool {
    forall|i: int, j: int|
        0 <= i < j < bucket.len() ==> bucket[i].progress < bucket[j].progress || (
        bucket[i].progress == bucket[j].progress && bucket[i].vehicle < bucket[j].vehicle)
}

/// Whether vehicle `v` is among the occupants.
pub open spec fn holds(bucket: Seq<Occupant>, v: int) -> bool {
    exists|k: int| 0 <= k < bucket.len() && (#[trigger] bucket[k]).vehicle == v
}

impl SegmentOccupancy {
    /// Whether the index lists the first `count` of `vehicles`, and no
    /// others: each on the segment it is on, as it stands, and each
    /// segment's vehicles in order.
    pub open spec fn indexes_upto(&self, vehicles: Seq<Vehicle>, segments: int, count: int) -> bool {
        &&& self.vehicles@.len() == segments
        &&& forall|s: int|
            0 <= s < segments ==> {
                &&& in_order((#[trigger] self.vehicles@[s])@)
                &&& forall|k: int|
                    0 <= k < self.vehicles@[s]@.len() ==> (#[trigger] self.vehicles@[s]@[k]).mirrors(
                        vehicles,
                        s,
                    ) && self.vehicles@[s]@[k].vehicle < count
            }
        &&& forall|v: int|
            0 <= v < count ==> holds(
                self.vehicles@[(#[trigger] vehicles[v]).segment.id as int]@,
                v,
            )
    }

    /// Whether the index lists `vehicles`, all of them.
    pub open spec fn indexes(&self, vehicles: Seq<Vehicle>, segments: int) -> bool {
        self.indexes_upto(vehicles, segments, vehicles.len() as int)
    }

    pub fn new() -> (r: SegmentOccupancy)
        ensures
            r.vehicles@.len() == 0,
    {
        SegmentOccupancy { vehicles: Vec::new() }
    }
}

impl Default for SegmentOccupancy {
    fn default() -> (r: SegmentOccupancy)
        ensures
            r.vehicles@.len() == 0,
    {
        SegmentOccupancy::new()
    }
}

/// Builds the index anew: the vehicles of each segment of `road`, in
/// ascending order of their progress. Vehicles at the same progress stay in
/// the order of the list.
pub fn update_occupancy(occupancy: &mut SegmentOccupancy, vehicles: &Vec<Vehicle>, road: &Road)
    requires
        forall|v: int|
            0 <= v < vehicles@.len() ==> (#[trigger] vehicles@[v]).segment.id
                < road.segments@.len(),
    ensures
        final(occupancy).indexes(vehicles@, road.segments@.len() as int),
{
    let ghost segments = road.segments@.len() as int;
    let mut buckets: Vec<Vec<Occupant>> = Vec::new();
    let mut s: usize = 0;
    while s < road.segments.len()
        invariant
            s <= road.segments@.len(),
            buckets@.len() == s,
            forall|x: int| 0 <= x < s ==> (#[trigger] buckets@[x])@.len() == 0,
        decreases road.segments@.len() - s,
    {
        buckets.push(Vec::new());
        s += 1;
    }
    occupancy.vehicles = buckets;
    let mut v: usize = 0;
    while v < vehicles.len()
        invariant
            v <= vehicles@.len(),
            segments == road.segments@.len(),
            forall|x: int|
                0 <= x < vehicles@.len() ==> (#[trigger] vehicles@[x]).segment.id < segments,
            occupancy.indexes_upto(vehicles@, segments, v as int),
        decreases vehicles@.len() - v,
    {
        let vehicle = &vehicles[v];
        let at = vehicle.segment.id;
        let occupant = Occupant {
            progress: vehicle.progress,
            vehicle: v,
            speed: vehicle.speed,
            segment: vehicle.segment,
        };
        let mut p: usize = 0;
        while p < occupancy.vehicles[at].len() && occupancy.vehicles[at][p].progress
            <= occupant.progress
            invariant
                at < occupancy.vehicles@.len(),
                p <= occupancy.vehicles@[at as int]@.len(),
                forall|k: int|
                    0 <= k < p ==> occupancy.vehicles@[at as int]@[k].progress <= occupant.progress,
            decreases occupancy.vehicles@[at as int]@.len() - p,
        {
            p += 1;
        }
        let ghost before = *occupancy;
        occupancy.vehicles[at].insert(p, occupant);
        proof {
            lemma_inserted(&before, occupancy, vehicles@, segments, v as int, p as int, occupant);
        }
        v += 1;
    }
}

/// Occupants in order stay in order when one more is put behind those that
/// are not ahead of it and before those that are, if its vehicle stands
/// later in the list than all of theirs.
#[verifier::rlimit(40)]
proof fn lemma_insert_in_order(old: Seq<Occupant>, p: int, occupant: Occupant)
    requires
        in_order(old),
        0 <= p <= old.len(),
        forall|k: int| 0 <= k < old.len() ==> (#[trigger] old[k]).vehicle < occupant.vehicle,
        forall|k: int| 0 <= k < p ==> old[k].progress <= occupant.progress,
        p < old.len() ==> old[p].progress > occupant.progress,
    ensures
        in_order(old.insert(p, occupant)),
{
    let new = old.insert(p, occupant);
    old.insert_ensures(p, occupant);
    assert forall|i: int, j: int| 0 <= i < j < new.len() implies new[i].progress
        < new[j].progress || (new[i].progress == new[j].progress && new[i].vehicle
        < new[j].vehicle) by {
        if j < p {
            assert(new[i] == old[i] && new[j] == old[j]);
        } else if j == p {
            assert(new[i] == old[i]);
        } else if i < p {
            assert(new[i] == old[i] && new[j] == old[j - 1]);
        } else if i == p {
            assert(new[j] == old[j - 1]);
            assert(p < j - 1 ==> (old[p].progress < old[j - 1].progress || old[p].progress
                == old[j - 1].progress));
        } else {
            assert(new[i] == old[i - 1] && new[j] == old[j - 1]);
        }
    }
}

/// The index with one more vehicle put in its place lists one more vehicle.
#[verifier::rlimit(40)]
proof fn lemma_inserted(
    before: &SegmentOccupancy,
    after: &SegmentOccupancy,
    vehicles: Seq<Vehicle>,
    segments: int,
    v: int,
    p: int,
    occupant: Occupant,
)
    requires
        0 <= v < vehicles.len(),
        forall|x: int| 0 <= x < vehicles.len() ==> (#[trigger] vehicles[x]).segment.id < segments,
        before.indexes_upto(vehicles, segments, v),
        occupant.vehicle == v,
        occupant.mirrors(vehicles, vehicles[v].segment.id as int),
        vehicles[v].segment.id < segments,
        0 <= p <= before.vehicles@[vehicles[v].segment.id as int]@.len(),
        forall|k: int|
            0 <= k < p ==> before.vehicles@[vehicles[v].segment.id as int]@[k].progress
                <= occupant.progress,
        p < before.vehicles@[vehicles[v].segment.id as int]@.len()
            ==> before.vehicles@[vehicles[v].segment.id as int]@[p].progress > occupant.progress,
        after.vehicles@.len() == before.vehicles@.len(),
        forall|s: int|
            0 <= s < segments && s != vehicles[v].segment.id ==> after.vehicles@[s]
                == before.vehicles@[s],
        after.vehicles@[vehicles[v].segment.id as int]@
            == before.vehicles@[vehicles[v].segment.id as int]@.insert(p, occupant),
    ensures
        after.indexes_upto(vehicles, segments, v + 1),
{
    let at = vehicles[v].segment.id as int;
    let old = before.vehicles@[at]@;
    let new = after.vehicles@[at]@;
    old.insert_ensures(p, occupant);
    assert(in_order(old));
    assert forall|k: int| 0 <= k < old.len() implies (#[trigger] old[k]).vehicle < v by {
        assert(old[k].mirrors(vehicles, at));
    }
    lemma_insert_in_order(old, p, occupant);
    assert forall|k: int| 0 <= k < new.len() implies (#[trigger] new[k]).mirrors(vehicles, at)
        && new[k].vehicle < v + 1 by {
        if k < p {
            assert(new[k] == old[k]);
            assert(old[k].mirrors(vehicles, at));
        } else if k > p {
            assert(new[k] == old[k - 1]);
            assert(old[k - 1].mirrors(vehicles, at));
        }
    }
    assert forall|s: int| 0 <= s < segments implies {
        &&& in_order((#[trigger] after.vehicles@[s])@)
        &&& forall|k: int|
            0 <= k < after.vehicles@[s]@.len() ==> (#[trigger] after.vehicles@[s]@[k]).mirrors(
                vehicles,
                s,
            ) && after.vehicles@[s]@[k].vehicle < v + 1
    } by {
        if s != at {
            assert(after.vehicles@[s] == before.vehicles@[s]);
            assert(in_order(before.vehicles@[s]@));
            assert forall|k: int| 0 <= k < after.vehicles@[s]@.len() implies (
            #[trigger] after.vehicles@[s]@[k]).mirrors(vehicles, s) && after.vehicles@[s]@[k].vehicle
                < v + 1 by {
                assert(before.vehicles@[s]@[k].mirrors(vehicles, s));
            }
        }
    }
    assert forall|x: int| 0 <= x < v + 1 implies holds(
        after.vehicles@[(#[trigger] vehicles[x]).segment.id as int]@,
        x,
    ) by {
        let sx = vehicles[x].segment.id as int;
        if x == v {
            assert(new[p].vehicle == v);
        } else {
            assert(holds(before.vehicles@[sx]@, x));
            let k = choose|k: int|
                0 <= k < before.vehicles@[sx]@.len() && (#[trigger] before.vehicles@[sx]@[k]).vehicle
                    == x;
            if sx == at {
                if k < p {
                    assert(new[k] == old[k]);
                } else {
                    assert(new[k + 1] == old[k]);
                }
            } else {
                assert(after.vehicles@[sx]@[k].vehicle == x);
            }
        }
    }
}

/// Whether `occupant` counts as ahead: it is another vehicle than `entity`
/// and, where a progress is given, it is beyond that progress.
pub open spec fn is_ahead(occupant: Occupant, entity: usize, beyond: Option<i64>) -> bool {
    &&& occupant.vehicle != entity
    &&& match beyond {
        Some(progress) => occupant.progress > progress,
        None => true,
    }
}

/// The first of the occupants from position `k` on that counts as ahead.
pub open spec fn first_ahead_spec(
    bucket: Seq<Occupant>,
    entity: usize,
    beyond: Option<i64>,
    k: int,
) -> Option<Occupant>
    decreases bucket.len() - k,
{
    if k < 0 || k >= bucket.len() {
        None
    } else if is_ahead(bucket[k], entity, beyond) {
        Some(bucket[k])
    } else {
        first_ahead_spec(bucket, entity, beyond, k + 1)
    }
}

/// The first of the occupants that counts as ahead.
pub fn first_ahead(bucket: &Vec<Occupant>, entity: usize, beyond: Option<i64>) -> (r: Option<
    Occupant,
>)
    ensures
        r == first_ahead_spec(bucket@, entity, beyond, 0),
{
    let mut k: usize = 0;
    while k < bucket.len()
        invariant
            k <= bucket@.len(),
            first_ahead_spec(bucket@, entity, beyond, 0) == first_ahead_spec(
                bucket@,
                entity,
                beyond,
                k as int,
            ),
        decreases bucket@.len() - k,
    {
        let occupant = bucket[k];
        let ahead = occupant.vehicle != entity && match beyond {
            Some(progress) => occupant.progress > progress,
            None => true,
        };
        if ahead {
            return Some(occupant);
        }
        k += 1;
    }
    None
}

impl SegmentOccupancy {
    /// The vehicle ahead and the distance to it, looking at `hops` segments
    /// at most, the first of them `segment`.
    ///
    /// On the vehicle's own segment, where `own` is its progress, only the
    /// vehicles beyond it count, and the distance is the difference in
    /// progress times the length. On a later segment, where `own` is
    /// `None`, every other vehicle counts, and the distance is the way
    /// `covered` up to the segment and the way of the vehicle ahead into it.
    /// Where a segment has nobody ahead the search goes on with the first
    /// segment that departs from its end.
    pub open spec fn search_spec(
        &self,
        road: &Road,
        entity: usize,
        own: Option<i64>,
        segment: int,
        covered: i64,
        hops: nat,
    ) -> Option<(Occupant, i64)>
        decreases hops,
    {
        if hops == 0 {
            None
        } else {
            let length = road.segments@[segment].length;
            match first_ahead_spec(self.vehicles@[segment]@, entity, own, 0) {
                Some(occupant) => Some(
                    (
                        occupant,
                        match own {
                            Some(progress) => mul_spec(sub_spec(occupant.progress, progress), length),
                            None => add_spec(covered, mul_spec(occupant.progress, length)),
                        },
                    ),
                ),
                None => {
                    let further = road.nodes@[road.segments@[segment].to.id as int].outgoing@;
                    if hops == 1 || further.len() == 0 {
                        None
                    } else {
                        self.search_spec(
                            road,
                            entity,
                            None,
                            further[0].id as int,
                            add_spec(
                                covered,
                                match own {
                                    Some(progress) => mul_spec(sub_spec(ONE, progress), length),
                                    None => length,
                                },
                            ),
                            (hops - 1) as nat,
                        )
                    }
                },
            }
        }
    }

    /// The vehicle ahead of `vehicle`, which stands at position `entity` of
    /// the list, and the distance to it: on its own segment or on one of the
    /// segments that follow, up to the horizon.
    pub open spec fn find_next_spec(&self, entity: usize, vehicle: &Vehicle, road: &Road) -> Option<
        (Occupant, i64),
    > {
        self.search_spec(
            road,
            entity,
            Some(vehicle.progress),
            vehicle.segment.id as int,
            0,
            HORIZON as nat,
        )
    }

    pub fn find_next(&self, entity: usize, vehicle: &Vehicle, road: &Road) -> (r: Option<
        (Occupant, i64),
    >)
        requires
            road.wf(),
            vehicle.segment.id < road.segments@.len(),
            self.vehicles@.len() == road.segments@.len(),
        ensures
            r == self.find_next_spec(entity, vehicle, road),
    {
        let mut segment = vehicle.segment;
        let mut own: Option<i64> = Some(vehicle.progress);
        let mut covered: i64 = 0;
        let mut hops: usize = HORIZON;
        loop
            invariant
                road.wf(),
                segment.id < road.segments@.len(),
                self.vehicles@.len() == road.segments@.len(),
                0 < hops <= HORIZON,
                self.find_next_spec(entity, vehicle, road) == self.search_spec(
                    road,
                    entity,
                    own,
                    segment.id as int,
                    covered,
                    hops as nat,
                ),
            decreases hops,
        {
            let path = road.segments.get(&segment);
            let length = path.length;
            proof {
                assert(road.wired(segment.id as int));
            }
            match first_ahead(&self.vehicles[segment.id], entity, own) {
                Some(occupant) => {
                    let distance = match own {
                        Some(progress) => fx_mul(fx_sub(occupant.progress, progress), length),
                        None => fx_add(covered, fx_mul(occupant.progress, length)),
                    };
                    return Some((occupant, distance));
                },
                None => {},
            }
            covered = fx_add(
                covered,
                match own {
                    Some(progress) => fx_mul(fx_sub(ONE, progress), length),
                    None => length,
                },
            );
            own = None;
            hops -= 1;
            if hops == 0 {
                return None;
            }
            let further = &road.nodes.get(&path.to).outgoing;
            if further.len() == 0 {
                return None;
            }
            proof {
                assert(road.nodes@[path.to.id as int].wf(road.segments@.len() as int));
            }
            segment = further[0];
        }
    }
}

} // verus!

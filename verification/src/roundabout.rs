//! The paths of a roundabout: a ramp from each arriving road onto the
//! circle, the arcs of the circle, and a ramp from the circle to each
//! leaving road. Traffic runs counter-clockwise.

use crate::arena::Id;
use crate::driver::yielding::TurnType;
use crate::fixed::{abs_spec, add_spec, div_spec, fx_abs, fx_add, fx_div, fx_mul, mul_spec};
use crate::geometry::{
    point_on_circle, point_on_circle_spec, tangent, tangent_spec, SegmentGeometry,
};
use crate::junction::{Approach, ROUNDABOUT_RADIUS};
use crate::road::{Node, Segment};
use crate::trig::QUARTER_PI;
use crate::turns::PARALLEL_TOLERANCE;
use crate::vector::Vec3;
use vstd::prelude::*;

verus! {

/// The speed limit on every path of a roundabout: 5.5 m/s.
pub const SLOW: i64 = 5_500_000;

/// A road at a junction together with the node planted for it.
pub type Arm = (Approach, Id<Node>);

/// Whether `arms` are in ascending order of their angles.
pub open spec fn ascending(arms: Seq<Arm>) -> bool {
    forall|i: int, j: int| 0 <= i < j < arms.len() ==> arms[i].0.angle <= arms[j].0.angle
}

/// Each approach paired with the node at the same position of `ring`.
pub open spec fn paired(approaches: Seq<Approach>, ring: Seq<Id<Node>>) -> Seq<Arm> {
    Seq::new(approaches.len(), |k: int| (approaches[k], ring[k]))
}

/// The first position from `k` on at which an arm stands whose angle is
/// greater than `angle`; the length of `arms` where there is none.
pub open spec fn first_above_spec(arms: Seq<Arm>, angle: i64, k: int) -> int
    decreases arms.len() - k,
{
    if k < 0 || k >= arms.len() {
        arms.len() as int
    } else if arms[k].0.angle > angle {
        k
    } else {
        first_above_spec(arms, angle, k + 1)
    }
}

/// The first `k` of `arms` in ascending order of their angles, those at the
/// same angle in the order in which they stand in `arms`: each is put
/// behind those put before it whose angle is not greater than its own.
pub open spec fn sorted_arms_spec(arms: Seq<Arm>, k: int) -> Seq<Arm>
    decreases k,
{
    if k <= 0 {
        Seq::empty()
    } else {
        let before = sorted_arms_spec(arms, k - 1);
        before.insert(first_above_spec(before, arms[k - 1].0.angle, 0), arms[k - 1])
    }
}

/// The roads with their nodes, in ascending order of their angles; roads at
/// the same angle stay in the order in which they were given.
pub fn sort_arms(approaches: &Vec<Approach>, ring: &Vec<Id<Node>>) -> (r: Vec<Arm>)
    requires
        ring@.len() == approaches@.len(),
    ensures
        r@ == sorted_arms_spec(paired(approaches@, ring@), approaches@.len() as int),
        ascending(r@),
        r@.to_multiset() == paired(approaches@, ring@).to_multiset(),
        r@.len() == approaches@.len(),
{
    let ghost all = paired(approaches@, ring@);
    let mut out: Vec<Arm> = Vec::new();
    let mut i: usize = 0;
    proof {
        assert(all.take(0) =~= Seq::<Arm>::empty());
    }
    while i < approaches.len()
        invariant
            ring@.len() == approaches@.len(),
            all == paired(approaches@, ring@),
            i <= approaches@.len(),
            out@.len() == i,
            out@ == sorted_arms_spec(all, i as int),
            ascending(out@),
            out@.to_multiset() == all.take(i as int).to_multiset(),
        decreases approaches@.len() - i,
    {
        let arm: Arm = (approaches[i], ring[i]);
        let mut p: usize = 0;
        while p < out.len() && out[p].0.angle <= arm.0.angle
            invariant
                p <= out@.len(),
                forall|k: int| 0 <= k < p ==> out@[k].0.angle <= arm.0.angle,
                first_above_spec(out@, arm.0.angle, 0) == first_above_spec(
                    out@,
                    arm.0.angle,
                    p as int,
                ),
            decreases out@.len() - p,
        {
            p += 1;
        }
        proof {
            assert(all[i as int] == arm);
        }
        let ghost before = out@;
        out.insert(p, arm);
        proof {
            broadcast use vstd::seq_lib::group_to_multiset_ensures;

            before.insert_ensures(p as int, arm);
            assert(out@.remove(p as int) =~= before);
            assert(out@.remove(p as int).to_multiset() == out@.to_multiset().remove(arm));
            assert(out@.to_multiset().count(arm) > 0) by {
                assert(out@[p as int] == arm);
                assert(out@.contains(arm));
            }
            assert(out@.to_multiset() =~= before.to_multiset().insert(arm));
            assert(all.take(i + 1) =~= all.take(i as int).push(arm));
            assert forall|a: int, b: int| 0 <= a < b < out@.len() implies out@[a].0.angle
                <= out@[b].0.angle by {
                if b < p {
                    assert(out@[a] == before[a] && out@[b] == before[b]);
                } else if b == p {
                    assert(out@[a] == before[a]);
                } else if a < p {
                    assert(out@[a] == before[a] && out@[b] == before[b - 1]);
                } else if a == p {
                    assert(out@[b] == before[b - 1]);
                } else {
                    assert(out@[a] == before[a - 1] && out@[b] == before[b - 1]);
                }
            }
        }
        i += 1;
    }
    proof {
        assert(all.take(approaches@.len() as int) =~= all);
    }
    out
}

/// Every sorted arm is one of the roads, with the node planted for it.
pub proof fn lemma_sorted_arm(approaches: Seq<Approach>, ring: Seq<Id<Node>>, sorted: Seq<Arm>, k: int)
    requires
        ring.len() == approaches.len(),
        sorted.to_multiset() == paired(approaches, ring).to_multiset(),
        0 <= k < sorted.len(),
    ensures
        exists|i: int|
            0 <= i < approaches.len() && sorted[k].0 == #[trigger] approaches[i] && sorted[k].1
                == ring[i],
{
    broadcast use vstd::seq_lib::group_to_multiset_ensures;

    let all = paired(approaches, ring);
    assert(sorted.contains(sorted[k]));
    assert(all.to_multiset().count(sorted[k]) > 0);
    assert(all.contains(sorted[k]));
    let i = choose|i: int| 0 <= i < all.len() && all[i] == sorted[k];
    assert(sorted[k].0 == approaches[i]);
}

/// Where the node on the circle stands that belongs to an arriving road seen
/// at `angle`: an eighth of a turn further on, at the height of the centre.
pub open spec fn circle_position_spec(center: Vec3, angle: i64) -> Vec3 {
    point_on_circle_spec(center, ROUNDABOUT_RADIUS, add_spec(angle, QUARTER_PI), center.z)
}

/// The heading of counter-clockwise traffic at the point `at` of the circle.
pub open spec fn circle_heading_spec(center: Vec3, at: Vec3) -> Vec3 {
    tangent_spec(at.minus_spec(center).normalized_spec(), false)
}

/// The arc that leaves `start` in the direction `heading` and passes through
/// `end`. Its centre lies on the normal of the heading through `start`, as far
/// from `start` as from `end`. Where `end` lies straight ahead there is no such
/// arc, and the path is straight.
#[verifier::opaque]
pub open spec fn arc_from_spec(start: Vec3, heading: Vec3, end: Vec3) -> SegmentGeometry {
    let left = Vec3 { x: crate::fixed::neg_spec(heading.y), y: heading.x, z: 0 };
    let chord = end.minus_spec(start);
    let across = add_spec(mul_spec(chord.x, left.x), mul_spec(chord.y, left.y));
    if abs_spec(across) < PARALLEL_TOLERANCE {
        SegmentGeometry::Straight
    } else {
        let reach = add_spec(mul_spec(chord.x, chord.x), mul_spec(chord.y, chord.y));
        let t = div_spec(reach, mul_spec(2_000_000, across));
        SegmentGeometry::Curved {
            center: start.plus_spec(left.scaled_spec(t)),
            radius: abs_spec(t),
            clockwise: t < 0,
        }
    }
}

pub fn circle_position(center: Vec3, angle: i64) -> (r: Vec3)
    ensures
        r == circle_position_spec(center, angle),
{
    point_on_circle(center, ROUNDABOUT_RADIUS, fx_add(angle, QUARTER_PI), center.z)
}

pub fn circle_heading(center: Vec3, at: Vec3) -> (r: Vec3)
    ensures
        r == circle_heading_spec(center, at),
{
    tangent(at.minus(center).normalized(), false)
}

pub fn arc_from(start: Vec3, heading: Vec3, end: Vec3) -> (r: SegmentGeometry)
    ensures
        r == arc_from_spec(start, heading, end),
{
    reveal(arc_from_spec);
    let left = Vec3 { x: crate::fixed::fx_neg(heading.y), y: heading.x, z: 0 };
    let chord = end.minus(start);
    let across = fx_add(fx_mul(chord.x, left.x), fx_mul(chord.y, left.y));
    if fx_abs(across) < PARALLEL_TOLERANCE {
        SegmentGeometry::Straight
    } else {
        let reach = fx_add(fx_mul(chord.x, chord.x), fx_mul(chord.y, chord.y));
        let t = fx_div(reach, fx_mul(2_000_000, across));
        SegmentGeometry::Curved {
            center: start.plus(left.scaled(t)),
            radius: fx_abs(t),
            clockwise: t < 0,
        }
    }
}

/// The path of a roundabout from `from` at `start`, left in the direction
/// `heading`, to `to` at `end`.
pub open spec fn ramp_spec(
    from: Id<Node>,
    start: Vec3,
    heading: Vec3,
    to: Id<Node>,
    end: Vec3,
    turn_type: TurnType,
) -> Segment {
    let geometry = arc_from_spec(start, heading, end);
    Segment {
        from,
        to,
        speed_limit: SLOW,
        geometry,
        turn_type,
        length: geometry.length_spec(start, end),
    }
}

/// The arc of the circle round `center` from `from` at `start` to `to` at `end`.
pub open spec fn circle_arc_spec(center: Vec3, from: Id<Node>, start: Vec3, to: Id<Node>, end: Vec3) -> Segment {
    let geometry = SegmentGeometry::Curved { center, radius: ROUNDABOUT_RADIUS, clockwise: false };
    Segment {
        from,
        to,
        speed_limit: SLOW,
        geometry,
        turn_type: TurnType::RoundaboutCircle,
        length: geometry.length_spec(start, end),
    }
}

pub fn ramp(from: Id<Node>, start: Vec3, heading: Vec3, to: Id<Node>, end: Vec3, turn_type: TurnType) -> (r: Segment)
    ensures
        r == ramp_spec(from, start, heading, to, end, turn_type),
{
    let geometry = arc_from(start, heading, end);
    Segment { from, to, speed_limit: SLOW, geometry, turn_type, length: geometry.length(start, end) }
}

pub fn circle_arc(center: Vec3, from: Id<Node>, start: Vec3, to: Id<Node>, end: Vec3) -> (r: Segment)
    ensures
        r == circle_arc_spec(center, from, start, to, end),
{
    let geometry = SegmentGeometry::Curved { center, radius: ROUNDABOUT_RADIUS, clockwise: false };
    Segment {
        from,
        to,
        speed_limit: SLOW,
        geometry,
        turn_type: TurnType::RoundaboutCircle,
        length: geometry.length(start, end),
    }
}

} // verus!

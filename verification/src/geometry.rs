//! The shape of a segment between its two end points: a straight line or a
//! circular arc.

use crate::fixed::{
    abs_spec, add_spec, fx_abs, fx_add, fx_mul, fx_neg, fx_sub, mul_spec, neg_spec, sub_spec,
    ONE,
};
use crate::trig::{atan2, atan2_spec, lemma_atan2_bounds, sin_cos, sin_cos_spec, TAU};
use crate::vector::Vec3;
use vstd::prelude::*;

verus! {

#[derive(Clone, Copy, Debug, PartialEq, Eq, Structural, Hash)]
pub enum SegmentGeometry {
    /// The straight line from one end to the other.
    Straight,
    /// The arc of the circle round `center` that leads from one end to the
    /// other, clockwise or counter-clockwise.
    Curved { center: Vec3, radius: i64, clockwise: bool },
}

/// The angle at which `p` is seen from `center`.
pub open spec fn angle_about_spec(center: Vec3, p: Vec3) -> i64 {
    atan2_spec(sub_spec(p.y, center.y), sub_spec(p.x, center.x))
}

/// The signed angle swept from `start` to `end`: never positive clockwise,
/// never negative counter-clockwise. A difference of the wrong sign is
/// corrected by a whole turn.
pub open spec fn sweep_spec(start: i64, end: i64, clockwise: bool) -> i64 {
    let diff = sub_spec(end, start);
    if clockwise {
        if diff > 0 {
            sub_spec(diff, TAU)
        } else {
            diff
        }
    } else {
        if diff < 0 {
            add_spec(diff, TAU)
        } else {
            diff
        }
    }
}

/// The signed angle of the arc round `center` that leads from `from` to `to`.
pub open spec fn arc_sweep_spec(center: Vec3, clockwise: bool, from: Vec3, to: Vec3) -> i64 {
    sweep_spec(angle_about_spec(center, from), angle_about_spec(center, to), clockwise)
}

/// The point of the circle round `center` at `angle`, at height `z`.
pub open spec fn point_on_circle_spec(center: Vec3, radius: i64, angle: i64, z: i64) -> Vec3 {
    let (s, c) = sin_cos_spec(angle);
    Vec3 {
        x: add_spec(center.x, mul_spec(c, radius)),
        y: add_spec(center.y, mul_spec(s, radius)),
        z,
    }
}

/// The tangent of a circle at the point seen in direction `radial` from its
/// centre: the radial turned a quarter, to the right for a clockwise arc.
pub open spec fn tangent_spec(radial: Vec3, clockwise: bool) -> Vec3 {
    if clockwise {
        Vec3 { x: radial.y, y: neg_spec(radial.x), z: 0 }
    } else {
        Vec3 { x: neg_spec(radial.y), y: radial.x, z: 0 }
    }
}

pub fn angle_about(center: Vec3, p: Vec3) -> (r: i64)
    ensures
        r == angle_about_spec(center, p),
{
    atan2(fx_sub(p.y, center.y), fx_sub(p.x, center.x))
}

pub fn sweep(start: i64, end: i64, clockwise: bool) -> (r: i64)
    ensures
        r == sweep_spec(start, end, clockwise),
{
    let diff = fx_sub(end, start);
    if clockwise {
        if diff > 0 {
            fx_sub(diff, TAU)
        } else {
            diff
        }
    } else {
        if diff < 0 {
            fx_add(diff, TAU)
        } else {
            diff
        }
    }
}

pub fn point_on_circle(center: Vec3, radius: i64, angle: i64, z: i64) -> (r: Vec3)
    ensures
        r == point_on_circle_spec(center, radius, angle, z),
{
    let (s, c) = sin_cos(angle);
    Vec3 { x: fx_add(center.x, fx_mul(c, radius)), y: fx_add(center.y, fx_mul(s, radius)), z }
}

pub fn tangent(radial: Vec3, clockwise: bool) -> (r: Vec3)
    ensures
        r == tangent_spec(radial, clockwise),
{
    if clockwise {
        Vec3 { x: radial.y, y: fx_neg(radial.x), z: 0 }
    } else {
        Vec3 { x: fx_neg(radial.y), y: radial.x, z: 0 }
    }
}

impl SegmentGeometry {
    /// The length of the path from `from` to `to`: the distance for a straight
    /// line, radius times swept angle for an arc.
    #[verifier::opaque]
    pub open spec fn length_spec(self, from: Vec3, to: Vec3) -> i64 {
        match self {
            SegmentGeometry::Straight => from.distance_spec(to),
            SegmentGeometry::Curved { center, radius, clockwise } => mul_spec(
                radius,
                abs_spec(arc_sweep_spec(center, clockwise, from, to)),
            ),
        }
    }

    /// The point at `progress` along the path, where `0` is `from` and `ONE`
    /// is `to`; a progress outside that range gives the nearer end itself.
    #[verifier::opaque]
    pub open spec fn position_at_spec(self, from: Vec3, to: Vec3, progress: i64) -> Vec3 {
        if progress <= 0 {
            from
        } else if progress >= ONE {
            to
        } else {
            match self {
                SegmentGeometry::Straight => from.lerp_spec(to, progress),
                SegmentGeometry::Curved { center, radius, clockwise } => point_on_circle_spec(
                    center,
                    radius,
                    add_spec(
                        angle_about_spec(center, from),
                        mul_spec(arc_sweep_spec(center, clockwise, from, to), progress),
                    ),
                    from.z,
                ),
            }
        }
    }

    /// The direction of travel at `progress` along the path.
    #[verifier::opaque]
    pub open spec fn direction_at_spec(self, from: Vec3, to: Vec3, progress: i64) -> Vec3 {
        match self {
            SegmentGeometry::Straight => to.minus_spec(from).normalized_spec(),
            SegmentGeometry::Curved { center, radius, clockwise } => tangent_spec(
                self.position_at_spec(from, to, progress).minus_spec(center).normalized_spec(),
                clockwise,
            ),
        }
    }

    pub fn length(&self, from: Vec3, to: Vec3) -> (r: i64)
        ensures
            r == self.length_spec(from, to),
            *self is Straight ==> r == from.distance_spec(to),
            *self matches SegmentGeometry::Curved { center, radius, clockwise } ==> r == mul_spec(
                radius,
                abs_spec(arc_sweep_spec(center, clockwise, from, to)),
            ),
    {
        reveal(SegmentGeometry::length_spec);
        match self {
            SegmentGeometry::Straight => from.distance(to),
            SegmentGeometry::Curved { center, radius, clockwise } => {
                let start = angle_about(*center, from);
                let end = angle_about(*center, to);
                fx_mul(*radius, fx_abs(sweep(start, end, *clockwise)))
            },
        }
    }

    pub fn position_at(&self, from: Vec3, to: Vec3, progress: i64) -> (r: Vec3)
        ensures
            r == self.position_at_spec(from, to, progress),
            progress <= 0 ==> r == from,
            progress >= ONE ==> r == to,
    {
        reveal(SegmentGeometry::position_at_spec);
        if progress <= 0 {
            return from;
        }
        if progress >= ONE {
            return to;
        }
        match self {
            SegmentGeometry::Straight => from.lerp(to, progress),
            SegmentGeometry::Curved { center, radius, clockwise } => {
                let start = angle_about(*center, from);
                let end = angle_about(*center, to);
                let angle = fx_add(start, fx_mul(sweep(start, end, *clockwise), progress));
                point_on_circle(*center, *radius, angle, from.z)
            },
        }
    }

    pub fn direction_at(&self, from: Vec3, to: Vec3, progress: i64) -> (r: Vec3)
        ensures
            r == self.direction_at_spec(from, to, progress),
    {
        reveal(SegmentGeometry::direction_at_spec);
        match self {
            SegmentGeometry::Straight => to.minus(from).normalized(),
            SegmentGeometry::Curved { center, radius, clockwise } => {
                let pos = self.position_at(from, to, progress);
                tangent(pos.minus(*center).normalized(), *clockwise)
            },
        }
    }
}

/// A path starts at its first end and stops at its second, whatever its shape.
pub proof fn lemma_position_at_ends(geometry: SegmentGeometry, from: Vec3, to: Vec3)
    ensures
        geometry.position_at_spec(from, to, 0) == from,
        geometry.position_at_spec(from, to, ONE) == to,
{
    reveal(SegmentGeometry::position_at_spec);
}

/// A straight segment is as long as its ends are apart.
pub proof fn lemma_straight_length(from: Vec3, to: Vec3)
    ensures
        SegmentGeometry::Straight.length_spec(from, to) == to.minus_spec(from).length_spec(),
{
    reveal(SegmentGeometry::length_spec);
}

/// An arc is as long as its radius times the magnitude of the angle it sweeps,
/// and that angle has the sign of the arc's sense of rotation.
pub proof fn lemma_curved_length(
    center: Vec3,
    radius: i64,
    clockwise: bool,
    from: Vec3,
    to: Vec3,
)
    ensures
        (SegmentGeometry::Curved { center, radius, clockwise }).length_spec(from, to) == mul_spec(
            radius,
            abs_spec(arc_sweep_spec(center, clockwise, from, to)),
        ),
        clockwise ==> arc_sweep_spec(center, clockwise, from, to) <= 0,
        !clockwise ==> arc_sweep_spec(center, clockwise, from, to) >= 0,
{
    reveal(SegmentGeometry::length_spec);
    lemma_atan2_bounds(sub_spec(from.y, center.y), sub_spec(from.x, center.x));
    lemma_atan2_bounds(sub_spec(to.y, center.y), sub_spec(to.x, center.x));
}

} // verus!

//! Three-component vectors of fixed-point quantities.

use crate::fixed::{
    add_spec, div_spec, from_int, from_int_spec, fx_add, fx_div, fx_mul, fx_sqrt, fx_sub,
    lerp, lerp_spec, mul_spec, sqrt_spec, sub_spec,
};
use vstd::prelude::*;

verus! {

/// A point or a direction; `z` is the height above the road plane.
#[derive(Clone, Copy, Debug, PartialEq, Eq, Structural, Hash)]
pub struct Vec3 {
    pub x: i64,
    pub y: i64,
    pub z: i64,
}

impl Vec3 {
    pub open spec fn zero_spec() -> Vec3 {
        Vec3 { x: 0, y: 0, z: 0 }
    }

    pub open spec fn from_units_spec(x: i64, y: i64, z: i64) -> Vec3 {
        Vec3 { x: from_int_spec(x), y: from_int_spec(y), z: from_int_spec(z) }
    }

    pub open spec fn plus_spec(self, o: Vec3) -> Vec3 {
        Vec3 { x: add_spec(self.x, o.x), y: add_spec(self.y, o.y), z: add_spec(self.z, o.z) }
    }

    pub open spec fn minus_spec(self, o: Vec3) -> Vec3 {
        Vec3 { x: sub_spec(self.x, o.x), y: sub_spec(self.y, o.y), z: sub_spec(self.z, o.z) }
    }

    pub open spec fn scaled_spec(self, k: i64) -> Vec3 {
        Vec3 { x: mul_spec(self.x, k), y: mul_spec(self.y, k), z: mul_spec(self.z, k) }
    }

    pub open spec fn dot_spec(self, o: Vec3) -> i64 {
        add_spec(add_spec(mul_spec(self.x, o.x), mul_spec(self.y, o.y)), mul_spec(self.z, o.z))
    }

    /// The `z` component of the cross product: positive where `o` points to
    /// the left of `self`.
    pub open spec fn cross_z_spec(self, o: Vec3) -> i64 {
        sub_spec(mul_spec(self.x, o.y), mul_spec(self.y, o.x))
    }

    pub open spec fn cross_spec(self, o: Vec3) -> Vec3 {
        Vec3 {
            x: sub_spec(mul_spec(self.y, o.z), mul_spec(self.z, o.y)),
            y: sub_spec(mul_spec(self.z, o.x), mul_spec(self.x, o.z)),
            z: self.cross_z_spec(o),
        }
    }

    pub open spec fn length_spec(self) -> i64 {
        sqrt_spec(self.dot_spec(self))
    }

    pub open spec fn distance_spec(self, o: Vec3) -> i64 {
        o.minus_spec(self).length_spec()
    }

    /// The vector divided by its length; the zero vector where the length is 0.
    pub open spec fn normalized_spec(self) -> Vec3 {
        let len = self.length_spec();
        if len == 0 {
            Vec3::zero_spec()
        } else {
            Vec3 { x: div_spec(self.x, len), y: div_spec(self.y, len), z: div_spec(self.z, len) }
        }
    }

    pub open spec fn lerp_spec(self, o: Vec3, t: i64) -> Vec3 {
        Vec3 {
            x: lerp_spec(self.x, o.x, t),
            y: lerp_spec(self.y, o.y, t),
            z: lerp_spec(self.z, o.z, t),
        }
    }

    /// The right-hand perpendicular in the road plane: `self × ẑ`.
    pub open spec fn right_spec(self) -> Vec3 {
        Vec3 { x: self.y, y: crate::fixed::neg_spec(self.x), z: 0 }
    }

    pub fn new(x: i64, y: i64, z: i64) -> (r: Vec3)
        ensures
            r == (Vec3 { x, y, z }),
    {
        Vec3 { x, y, z }
    }

    pub fn zero() -> (r: Vec3)
        ensures
            r == Vec3::zero_spec(),
    {
        Vec3 { x: 0, y: 0, z: 0 }
    }

    /// The point whose coordinates are whole units.
    pub fn from_units(x: i64, y: i64, z: i64) -> (r: Vec3)
        ensures
            r == Vec3::from_units_spec(x, y, z),
    {
        Vec3 { x: from_int(x), y: from_int(y), z: from_int(z) }
    }

    pub fn plus(self, o: Vec3) -> (r: Vec3)
        ensures
            r == self.plus_spec(o),
    {
        Vec3 { x: fx_add(self.x, o.x), y: fx_add(self.y, o.y), z: fx_add(self.z, o.z) }
    }

    pub fn minus(self, o: Vec3) -> (r: Vec3)
        ensures
            r == self.minus_spec(o),
    {
        Vec3 { x: fx_sub(self.x, o.x), y: fx_sub(self.y, o.y), z: fx_sub(self.z, o.z) }
    }

    pub fn scaled(self, k: i64) -> (r: Vec3)
        ensures
            r == self.scaled_spec(k),
    {
        Vec3 { x: fx_mul(self.x, k), y: fx_mul(self.y, k), z: fx_mul(self.z, k) }
    }

    pub fn dot(self, o: Vec3) -> (r: i64)
        ensures
            r == self.dot_spec(o),
    {
        fx_add(fx_add(fx_mul(self.x, o.x), fx_mul(self.y, o.y)), fx_mul(self.z, o.z))
    }

    pub fn cross_z(self, o: Vec3) -> (r: i64)
        ensures
            r == self.cross_z_spec(o),
    {
        fx_sub(fx_mul(self.x, o.y), fx_mul(self.y, o.x))
    }

    pub fn cross(self, o: Vec3) -> (r: Vec3)
        ensures
            r == self.cross_spec(o),
    {
        Vec3 {
            x: fx_sub(fx_mul(self.y, o.z), fx_mul(self.z, o.y)),
            y: fx_sub(fx_mul(self.z, o.x), fx_mul(self.x, o.z)),
            z: self.cross_z(o),
        }
    }

    pub fn length(self) -> (r: i64)
        ensures
            r == self.length_spec(),
            r >= 0,
    {
        fx_sqrt(self.dot(self))
    }

    pub fn distance(self, o: Vec3) -> (r: i64)
        ensures
            r == self.distance_spec(o),
            r >= 0,
    {
        o.minus(self).length()
    }

    pub fn normalized(self) -> (r: Vec3)
        ensures
            r == self.normalized_spec(),
    {
        let len = self.length();
        if len == 0 {
            Vec3::zero()
        } else {
            Vec3 { x: fx_div(self.x, len), y: fx_div(self.y, len), z: fx_div(self.z, len) }
        }
    }

    pub fn lerp(self, o: Vec3, t: i64) -> (r: Vec3)
        ensures
            r == self.lerp_spec(o, t),
    {
        Vec3 { x: lerp(self.x, o.x, t), y: lerp(self.y, o.y, t), z: lerp(self.z, o.z, t) }
    }

    pub fn right(self) -> (r: Vec3)
        ensures
            r == self.right_spec(),
    {
        Vec3 { x: self.y, y: crate::fixed::fx_neg(self.x), z: 0 }
    }
}

} // verus!

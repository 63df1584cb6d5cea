//! Three-component vectors of scalars.
use vstd::prelude::*;
use crate::scalar::Scalar;

verus! {

/// A point, a direction or a colour.
#[derive(Clone, Copy, Debug, PartialEq, Eq, Structural)]
pub struct Vec3 {
    pub x: Scalar,
    pub y: Scalar,
    pub z: Scalar,
}

impl Vec3 {
    /// No component is a NaN.
    pub open spec fn numeric(self) -> bool {
        !self.x.is_nan() && !self.y.is_nan() && !self.z.is_nan()
    }

    /// Component `axis` of the vector: 0 is `x`, 1 is `y`, anything else `z`.
    pub open spec fn axis_spec(self, axis: u8) -> Scalar {
        if axis == 0 {
            self.x
        } else if axis == 1 {
            self.y
        } else {
            self.z
        }
    }

    /// The component-wise minimum.
    pub open spec fn min_vec_spec(self, other: Vec3) -> Vec3 {
        Vec3 {
            x: self.x.min_spec(other.x),
            y: self.y.min_spec(other.y),
            z: self.z.min_spec(other.z),
        }
    }

    /// The component-wise maximum.
    pub open spec fn max_vec_spec(self, other: Vec3) -> Vec3 {
        Vec3 {
            x: self.x.max_spec(other.x),
            y: self.y.max_spec(other.y),
            z: self.z.max_spec(other.z),
        }
    }

    pub fn new(x: Scalar, y: Scalar, z: Scalar) -> (v: Vec3)
        ensures
            v == (Vec3 { x, y, z }),
    {
        Vec3 { x, y, z }
    }

    /// Whether no component is a NaN.
    pub fn is_numeric(&self) -> (r: bool)
        ensures
            r == self.numeric(),
    {
        !self.x.nan() && !self.y.nan() && !self.z.nan()
    }

    /// The component along `axis`.
    pub fn axis(&self, axis: u8) -> (s: Scalar)
        ensures
            s == self.axis_spec(axis),
    {
        if axis == 0 {
            self.x
        } else if axis == 1 {
            self.y
        } else {
            self.z
        }
    }

    /// Component-wise minimum.
    pub fn min_vec(&self, other: Vec3) -> (v: Vec3)
        ensures
            v == self.min_vec_spec(other),
    {
        Vec3::new(self.x.min(&other.x), self.y.min(&other.y), self.z.min(&other.z))
    }

    /// Component-wise maximum.
    pub fn max_vec(&self, other: Vec3) -> (v: Vec3)
        ensures
            v == self.max_vec_spec(other),
    {
        Vec3::new(self.x.max(&other.x), self.y.max(&other.y), self.z.max(&other.z))
    }
}

} // verus!

//! Axis-aligned bounding boxes.
use vstd::prelude::*;
use crate::scalar::{Scalar, MAX_BITS, NEG_INF_BITS, POS_INF_BITS};
use crate::vec3::Vec3;

verus! {

/// A box given by its lower and its upper corner. A box that holds
/// something has `min <= max` in every component.
#[derive(Clone, Copy, Debug, PartialEq, Eq, Structural)]
pub struct Aabb {
    pub min: Vec3,
    pub max: Vec3,
}

/// The box that holds nothing: every lower bound is `+inf`, every upper
/// bound `-inf`.
pub open spec fn empty_box() -> Aabb {
    Aabb {
        min: Vec3 {
            x: Scalar { bits: POS_INF_BITS },
            y: Scalar { bits: POS_INF_BITS },
            z: Scalar { bits: POS_INF_BITS },
        },
        max: Vec3 {
            x: Scalar { bits: NEG_INF_BITS },
            y: Scalar { bits: NEG_INF_BITS },
            z: Scalar { bits: NEG_INF_BITS },
        },
    }
}

/// `lo` is a lower bound of `v`, where `v` is a number at all.
pub open spec fn below(lo: Scalar, v: Scalar) -> bool {
    !v.is_nan() ==> lo.rank() <= v.rank()
}

/// `hi` is an upper bound of `v`, where `v` is a number at all.
pub open spec fn above(hi: Scalar, v: Scalar) -> bool {
    !v.is_nan() ==> v.rank() <= hi.rank()
}

/// Entry distance of a ray into a box, from the distances at which the ray
/// crosses the two planes of each axis: the largest of the three per-axis
/// entries, if the three intervals overlap at or after distance zero, and
/// the largest finite scalar otherwise.
pub open spec fn slab_entry_spec(
    x1: Scalar,
    x2: Scalar,
    y1: Scalar,
    y2: Scalar,
    z1: Scalar,
    z2: Scalar,
) -> Scalar {
    let near = x1.min_spec(x2).max_spec(y1.min_spec(y2)).max_spec(z1.min_spec(z2));
    let far = x1.max_spec(x2).min_spec(y1.max_spec(y2)).min_spec(z1.max_spec(z2));
    if near.max_spec(Scalar { bits: 0 }).le_spec(far) {
        near
    } else {
        Scalar { bits: MAX_BITS }
    }
}

impl Aabb {
    /// No corner component is a NaN.
    pub open spec fn numeric(self) -> bool {
        self.min.numeric() && self.max.numeric()
    }

    /// The component-wise minimum of the lower corners and maximum of the
    /// upper corners.
    pub open spec fn union_spec(self, other: Aabb) -> Aabb {
        Aabb { min: self.min.min_vec_spec(other.min), max: self.max.max_vec_spec(other.max) }
    }

    /// The box with `p` taken into both corners.
    pub open spec fn grow_spec(self, p: Vec3) -> Aabb {
        Aabb { min: self.min.min_vec_spec(p), max: self.max.max_vec_spec(p) }
    }

    /// Every numeric bound of `other` lies within the bounds of `self`.
    pub open spec fn encloses(self, other: Aabb) -> bool {
        &&& below(self.min.x, other.min.x)
        &&& below(self.min.y, other.min.y)
        &&& below(self.min.z, other.min.z)
        &&& above(self.max.x, other.max.x)
        &&& above(self.max.y, other.max.y)
        &&& above(self.max.z, other.max.z)
    }

    /// The box that holds nothing, the identity of `union`.
    pub fn empty() -> (b: Aabb)
        ensures
            b == empty_box(),
            b.numeric(),
    {
        Aabb {
            min: Vec3::new(Scalar::infinity(), Scalar::infinity(), Scalar::infinity()),
            max: Vec3::new(
                Scalar::neg_infinity(),
                Scalar::neg_infinity(),
                Scalar::neg_infinity(),
            ),
        }
    }

    /// The smallest box that holds both boxes.
    pub fn union(&self, other: &Aabb) -> (b: Aabb)
        ensures
            b == self.union_spec(*other),
            self.numeric() ==> b.numeric() && b.encloses(*self) && b.encloses(*other),
    {
        Aabb { min: self.min.min_vec(other.min), max: self.max.max_vec(other.max) }
    }

    /// Extends the box so that it holds `p`.
    pub fn grow(&mut self, p: Vec3)
        ensures
            *final(self) == old(self).grow_spec(p),
            old(self).numeric() ==> final(self).numeric() && final(self).encloses(*old(self))
                && final(self).encloses(Aabb { min: p, max: p }),
    {
        self.min = self.min.min_vec(p);
        self.max = self.max.max_vec(p);
    }

    /// The slab test, from the distances at which a ray crosses the six
    /// planes of the box, two for each axis, in either order: the distance at
    /// which the ray enters the box, or the largest finite scalar where it
    /// misses.
    pub fn intersect(
        x1: Scalar,
        x2: Scalar,
        y1: Scalar,
        y2: Scalar,
        z1: Scalar,
        z2: Scalar,
    ) -> (t: Scalar)
        ensures
            t == slab_entry_spec(x1, x2, y1, y2, z1, z2),
    {
        let near = x1.min(&x2);
        let far = x1.max(&x2);
        let near = near.max(&y1.min(&y2));
        let far = far.min(&y1.max(&y2));
        let near = near.max(&z1.min(&z2));
        let far = far.min(&z1.max(&z2));
        if near.max(&Scalar::zero()).le(&far) {
            near
        } else {
            Scalar::largest()
        }
    }
}

/// The empty box is the identity of `union`: joined to a box without NaN
/// components it gives that box back, on either side.
pub proof fn lemma_union_empty_identity(a: Aabb)
    requires
        a.numeric(),
    ensures
        a.union_spec(empty_box()) == a,
        empty_box().union_spec(a) == a,
{
}

} // verus!

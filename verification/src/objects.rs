//! Scene geometry: the bounds that need no arithmetic, and the tests that
//! decide whether the solution of a ray equation counts as a hit.
use vstd::prelude::*;
use crate::aabb::{empty_box, Aabb};
use crate::material::Material;
use crate::scalar::Scalar;
use crate::vec3::Vec3;

verus! {

/// Encoding of `1e-6`: the smallest determinant, and the smallest distance,
/// at which a triangle is hit.
pub const TRIANGLE_EPSILON_BITS: u32 = 0x3586_37bd;

/// Encoding of `1e-3`: the smallest distance at which a sphere is hit, which
/// keeps a ray from hitting the surface it starts on.
pub const SPHERE_EPSILON_BITS: u32 = 0x3a83_126f;

/// Encoding of `1`.
pub const ONE_BITS: u32 = 0x3f80_0000;

/// A solution of the ray-triangle equations is a hit: the determinant `det`
/// is at least `1e-6` in magnitude, the barycentric coordinate `u` lies in
/// `0..=1`, `v` is not negative, their sum `u_plus_v` is not above `1`, and
/// the distance `t` is above `1e-6`.
pub open spec fn triangle_hit_spec(det: Scalar, u: Scalar, v: Scalar, u_plus_v: Scalar, t: Scalar) -> bool {
    let eps = Scalar { bits: TRIANGLE_EPSILON_BITS };
    let zero = Scalar { bits: 0 };
    let one = Scalar { bits: ONE_BITS };
    &&& !det.abs_spec().lt_spec(eps)
    &&& zero.le_spec(u)
    &&& u.le_spec(one)
    &&& !v.lt_spec(zero)
    &&& !one.lt_spec(u_plus_v)
    &&& eps.lt_spec(t)
}

/// The root of the ray-sphere quadratic at which the ray meets the sphere
/// first: the nearer root `near` where it is not negative, and the farther
/// root `far` where the ray starts inside the sphere.
pub open spec fn first_root(near: Scalar, far: Scalar) -> Scalar {
    if (Scalar { bits: 0 }).le_spec(near) {
        near
    } else {
        far
    }
}

/// The distance at which a ray hits a sphere, from the discriminant of the
/// ray-sphere quadratic and its two roots: nothing where the discriminant is
/// negative; otherwise the smallest root that is not negative, unless there
/// is none or it lies below `1e-3`.
pub open spec fn sphere_hit_spec(discriminant: Scalar, near: Scalar, far: Scalar) -> Option<Scalar> {
    let root = first_root(near, far);
    if discriminant.lt_spec(Scalar { bits: 0 }) {
        None
    } else if (Scalar { bits: 0 }).le_spec(root) && !root.lt_spec(
        Scalar { bits: SPHERE_EPSILON_BITS },
    ) {
        Some(root)
    } else {
        None
    }
}

/// A ray parallel to the plane of a triangle never hits it: where the
/// determinant is zero, or nearer to zero than `1e-6`, no solution is a hit,
/// whatever the rest holds.
pub proof fn lemma_parallel_ray_misses(det: Scalar, u: Scalar, v: Scalar, u_plus_v: Scalar, t: Scalar)
    requires
        det.same_spec(Scalar { bits: 0 }) || det.abs_spec().lt_spec(
            Scalar { bits: TRIANGLE_EPSILON_BITS },
        ),
    ensures
        !triangle_hit_spec(det, u, v, u_plus_v, t),
{
}

/// A sphere by its centre and radius.
#[derive(Clone, Copy, Debug)]
pub struct Sphere {
    pub center: Vec3,
    pub radius: Scalar,
    pub mat: Material,
}

impl Sphere {
    /// The distance at which a ray hits a sphere, from the discriminant of
    /// the ray-sphere quadratic and its two roots, `near <= far`: the
    /// smallest root that is not negative, where there is one and it is not
    /// below `1e-3`. A ray that starts inside the sphere hits it at `far`.
    pub fn intersect(discriminant: Scalar, near: Scalar, far: Scalar) -> (hit: Option<Scalar>)
        ensures
            hit == sphere_hit_spec(discriminant, near, far),
    {
        let zero = Scalar::zero();
        if discriminant.lt(&zero) {
            return None;
        }
        let root = if zero.le(&near) {
            near
        } else {
            far
        };
        if zero.le(&root) && !root.lt(&Scalar::from_bits(SPHERE_EPSILON_BITS)) {
            Some(root)
        } else {
            None
        }
    }
}

/// A triangle by its three vertices.
#[derive(Clone, Copy, Debug)]
pub struct Triangle {
    pub v0: Vec3,
    pub v1: Vec3,
    pub v2: Vec3,
    pub mat: Material,
}

impl Triangle {
    /// The distance at which a ray hits a triangle, from the solution of the
    /// ray-triangle equations: the determinant, the barycentric coordinates
    /// `u` and `v` with their sum, and the distance `t`, which is returned
    /// where the solution is a hit.
    pub fn intersect(det: Scalar, u: Scalar, v: Scalar, u_plus_v: Scalar, t: Scalar) -> (hit: Option<
        Scalar,
    >)
        ensures
            hit == (if triangle_hit_spec(det, u, v, u_plus_v, t) {
                Some(t)
            } else {
                None
            }),
    {
        let eps = Scalar::from_bits(TRIANGLE_EPSILON_BITS);
        let zero = Scalar::zero();
        let one = Scalar::from_bits(ONE_BITS);
        if !det.abs().lt(&eps) && zero.le(&u) && u.le(&one) && !v.lt(&zero) && !one.lt(&u_plus_v)
            && eps.lt(&t) {
            Some(t)
        } else {
            None
        }
    }

    /// The smallest box that holds the three vertices.
    pub fn aabb(&self) -> (b: Aabb)
        ensures
            b == empty_box().grow_spec(self.v0).grow_spec(self.v1).grow_spec(self.v2),
            b.numeric(),
            b.encloses(Aabb { min: self.v0, max: self.v0 }),
            b.encloses(Aabb { min: self.v1, max: self.v1 }),
            b.encloses(Aabb { min: self.v2, max: self.v2 }),
    {
        let mut aabb = Aabb::empty();
        aabb.grow(self.v0);
        aabb.grow(self.v1);
        aabb.grow(self.v2);
        aabb
    }
}

} // verus!

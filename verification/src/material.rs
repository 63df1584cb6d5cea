//! Surface description carried by every primitive.
use vstd::prelude::*;
use crate::scalar::Scalar;
use crate::vec3::Vec3;

verus! {

/// Colour and reflectance of a surface: its albedo, what it emits, its
/// specular coefficient in `0..=1`, its shininess exponent, and whether the
/// checkerboard pattern overrides the albedo.
#[derive(Clone, Copy, Debug)]
pub struct Material {
    pub albedo: Vec3,
    pub emission: Vec3,
    pub specular: Scalar,
    pub shininess: Scalar,
    pub checkered: bool,
}

} // verus!

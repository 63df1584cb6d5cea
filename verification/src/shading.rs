//! The decisions of the shading loop that are made on whole numbers and on
//! comparisons of scalars.
use vstd::prelude::*;
use crate::scalar::Scalar;

verus! {

/// The most rays that are followed from one pixel.
pub const MAX_BOUNCES: u8 = 4;

/// The tile with corner `(x, z)` is a dark one: the tiles alternate, and the
/// tile at the origin is light.
pub open spec fn checker_dark_spec(x: i32, z: i32) -> bool {
    (x + z) % 2 != 0
}

/// Whether the unit tile whose lower corner is `(x, z)` takes the dark
/// colour of the checkerboard.
pub fn checker_dark(x: i32, z: i32) -> (dark: bool)
    ensures
        dark == checker_dark_spec(x, z),
{
    let odd_x: bool = x % 2 != 0;
    let odd_z: bool = z % 2 != 0;
    odd_x != odd_z
}

/// The checkerboard changes colour at every tile boundary, along either
/// axis.
pub proof fn lemma_checker_alternates(x: i32, z: i32)
    requires
        x < i32::MAX,
        z < i32::MAX,
    ensures
        checker_dark_spec((x + 1) as i32, z) != checker_dark_spec(x, z),
        checker_dark_spec(x, (z + 1) as i32) != checker_dark_spec(x, z),
        !checker_dark_spec(0, 0),
{
}

/// A point is in shadow where the shadow ray is blocked nearer than the
/// light by a surface that does not itself emit: `blocker_dist_sq` and
/// `light_dist_sq` are squared distances from the point, `emission` the
/// length of the blocker's emitted colour.
pub fn in_shadow(blocker_dist_sq: Scalar, emission: Scalar, light_dist_sq: Scalar) -> (dark: bool)
    ensures
        dark == (blocker_dist_sq.lt_spec(light_dist_sq) && emission.same_spec(Scalar { bits: 0 })),
{
    blocker_dist_sq.lt(&light_dist_sq) && emission.same(&Scalar::zero())
}

/// A surface sends the ray on where its reflectance is above zero.
pub fn reflects(reflectance: Scalar) -> (on: bool)
    ensures
        on == (Scalar { bits: 0 }).lt_spec(reflectance),
{
    Scalar::zero().lt(&reflectance)
}

/// The number of the next ray to follow from a pixel, if there is one: the
/// ray numbered `bounce` must have hit a surface that sends it on, and fewer
/// than `MAX_BOUNCES` rays must have been followed with it.
pub fn next_bounce(bounce: u8, hit: bool, reflectance: Scalar) -> (next: Option<u8>)
    ensures
        next == (if hit && (Scalar { bits: 0 }).lt_spec(reflectance) && bounce + 1 < MAX_BOUNCES {
            Some((bounce + 1) as u8)
        } else {
            None
        }),
{
    if hit && reflects(reflectance) && bounce < MAX_BOUNCES - 1 {
        Some(bounce + 1)
    } else {
        None
    }
}

/// The pixel word of three colour channels: opaque alpha in the top byte,
/// then red, green and blue.
pub open spec fn pack_rgb_spec(r: u32, g: u32, b: u32) -> int {
    0xff00_0000 + r * 0x1_0000 + g * 0x100 + b
}

/// Packs three channels of eight bits into a pixel word.
pub fn pack_rgb(r: u32, g: u32, b: u32) -> (word: u32)
    requires
        r <= 255,
        g <= 255,
        b <= 255,
    ensures
        word == pack_rgb_spec(r, g, b),
{
    let word: u32 = (255u32 << 24) | (r << 16) | (g << 8) | b;
    assert(word == 0xff00_0000u32 + r * 0x1_0000u32 + g * 0x100u32 + b) by (bit_vector)
        requires
            r <= 255,
            g <= 255,
            b <= 255,
            word == (255u32 << 24) | (r << 16) | (g << 8) | b,
    ;
    word
}

} // verus!

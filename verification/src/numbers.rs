//! The numbers that the app starts with and that its rules are made of, as fractions.
use crate::accuracy::distance;
use crate::camera::{OrbitCamera, ORBIT_SENSITIVITY, ZOOM_SENSITIVITY};
use crate::controls::{Controls, TILT};
use crate::pick::CUBE_HALF;
use crate::ray::{ONE, PARALLEL_LIMIT};
use crate::scene::{
    looking_at_cube, marker_material, CUBE_EDGE, CUBE_ROUGHNESS, EIGHT, FOUR, ILLUMINANCE,
    MARKER_RADIUS, SIX, TWO,
};
use crate::single::{law_value_of_fields, Single, ZERO};
use crate::stats::{FrameStats, WINDOW_SECONDS};
use crate::transform::Transform;
use vstd::arithmetic::power2::{lemma2_to64, lemma_pow2_adds, lemma_pow2_pos, pow2};
use vstd::prelude::*;

verus! {

/// A number is a positive fraction, but for rounding.
pub open spec fn is_fraction(x: Single, num: int, den: int) -> bool {
    &&& x.finite()
    &&& 0x100_0000 * distance(den * x.value(), num * pow2(149)) <= num * pow2(149)
}

/// A number is zero.
pub open spec fn is_zero(x: Single) -> bool {
    x.finite() && x.value() == 0
}

/// A number by its exponent and fraction fields. `scale` is the power of two between its last
/// bit and one.
proof fn lemma_fraction(x: Single, e: int, f: int, scale: int, num: int, den: int)
    requires
        x.bits == e * 0x80_0000 + f,
        1 <= e <= 150,
        0 <= f < 0x80_0000,
        pow2((150 - e) as nat) == scale,
        num > 0,
        0x100_0000 * distance(den * (0x80_0000 + f), num * scale) <= num * scale,
    ensures
        is_fraction(x, num, den),
{
    let (m, p) = (0x80_0000 + f, pow2((e - 1) as nat) as int);
    law_value_of_fields(x, e, f);
    lemma_pow2_pos((e - 1) as nat);
    lemma_pow2_adds((e - 1) as nat, (150 - e) as nat);
    let (a, b) = (den * m, num * scale);
    assert(den * (m * p) == a * p && num * (p * scale) == b * p) by (nonlinear_arith)
        requires
            a == den * m,
            b == num * scale,
    ;
    assert(0x100_0000 * distance(a * p, b * p) <= b * p) by (nonlinear_arith)
        requires
            0x100_0000 * (a - b) <= b,
            0x100_0000 * (b - a) <= b,
            p > 0,
            distance(a * p, b * p) == (if a * p <= b * p { b * p - a * p } else { a * p - b * p }),
    ;
}

proof fn lemma_no_fraction()
    ensures
        is_zero(Single { bits: ZERO }),
{
}

/// The cube starts with a speed of 1 and the colour 0.3, 0.5 and 0.9.
pub proof fn law_controls_at_start()
    ensures
        is_fraction(Controls::initial().speed, 1, 1),
        is_fraction(Controls::initial().color.red, 3, 10),
        is_fraction(Controls::initial().color.green, 5, 10),
        is_fraction(Controls::initial().color.blue, 9, 10),
{
    lemma2_to64();
    lemma_fraction(Controls::initial().speed, 127, 0x0, 0x80_0000, 1, 1);
    lemma_fraction(Controls::initial().color.red, 125, 0x19_999a, 0x200_0000, 3, 10);
    lemma_fraction(Controls::initial().color.green, 126, 0x0, 0x100_0000, 5, 10);
    lemma_fraction(Controls::initial().color.blue, 126, 0x66_6666, 0x100_0000, 9, 10);
}

/// The camera starts with a yaw of 0, a pitch of 0.32 and a distance of 6.3.
pub proof fn law_camera_at_start()
    ensures
        is_zero(OrbitCamera::initial().yaw),
        is_fraction(OrbitCamera::initial().pitch, 32, 100),
        is_fraction(OrbitCamera::initial().distance, 63, 10),
{
    lemma2_to64();
    lemma_no_fraction();
    lemma_fraction(OrbitCamera::initial().pitch, 125, 0x23_d70a, 0x200_0000, 32, 100);
    lemma_fraction(OrbitCamera::initial().distance, 129, 0x49_999a, 0x20_0000, 63, 10);
}

/// Counting starts with no frames, no rate and an empty window.
pub proof fn law_counts_at_start()
    ensures
        FrameStats::initial().frames == 0,
        FrameStats::initial().window_frames == 0,
        is_zero(FrameStats::initial().fps),
        is_zero(FrameStats::initial().accumulator),
{
    lemma_no_fraction();
}

/// The numbers that the rules are made of: a drag of one unit turns by 0.005, a scroll of one
/// moves by 0.01, the cube tilts at 0.4 of its speed, a window of the frame rate is 0.25 seconds
/// long, a face of the cube is 0.75 from its centre, and a direction of less than a millionth
/// counts as parallel.
pub proof fn law_numbers_of_the_rules()
    ensures
        is_fraction(Single { bits: ORBIT_SENSITIVITY }, 5, 1000),
        is_fraction(Single { bits: ZOOM_SENSITIVITY }, 1, 100),
        is_fraction(Single { bits: TILT }, 4, 10),
        is_fraction(Single { bits: WINDOW_SECONDS }, 1, 4),
        is_fraction(Single { bits: CUBE_HALF }, 3, 4),
        is_fraction(Single { bits: PARALLEL_LIMIT }, 1, 1_000_000),
{
    lemma2_to64();
    lemma_pow2_adds(32, 11);
    lemma_fraction(Single { bits: ORBIT_SENSITIVITY }, 119, 0x23_d70a, 0x8000_0000, 5, 1000);
    lemma_fraction(Single { bits: ZOOM_SENSITIVITY }, 120, 0x23_d70a, 0x4000_0000, 1, 100);
    lemma_fraction(Single { bits: TILT }, 125, 0x4c_cccd, 0x200_0000, 4, 10);
    lemma_fraction(Single { bits: WINDOW_SECONDS }, 125, 0x0, 0x200_0000, 1, 4);
    lemma_fraction(Single { bits: CUBE_HALF }, 126, 0x40_0000, 0x100_0000, 3, 4);
    lemma_fraction(Single { bits: PARALLEL_LIMIT }, 107, 0x6_37bd, 0x800_0000_0000, 1, 1_000_000);
}

/// The scene's numbers: the cube's edges are 1.5 long and its roughness is 0.4; the marker has a
/// radius of 0.1 and the colour 1, 0.5 and 0.1, and is not shaded; the light is 9000 strong.
pub proof fn law_numbers_of_the_scene()
    ensures
        is_fraction(Single { bits: CUBE_EDGE }, 3, 2),
        is_fraction(Single { bits: CUBE_ROUGHNESS }, 4, 10),
        is_fraction(Single { bits: MARKER_RADIUS }, 1, 10),
        is_fraction(marker_material().base_color.red, 1, 1),
        is_fraction(marker_material().base_color.green, 5, 10),
        is_fraction(marker_material().base_color.blue, 1, 10),
        marker_material().unlit,
        marker_material().perceptual_roughness is None,
        is_fraction(Single { bits: ILLUMINANCE }, 9000, 1),
{
    lemma2_to64();
    lemma_fraction(Single { bits: CUBE_EDGE }, 127, 0x40_0000, 0x80_0000, 3, 2);
    lemma_fraction(Single { bits: CUBE_ROUGHNESS }, 125, 0x4c_cccd, 0x200_0000, 4, 10);
    lemma_fraction(Single { bits: MARKER_RADIUS }, 123, 0x4c_cccd, 0x800_0000, 1, 10);
    lemma_fraction(marker_material().base_color.red, 127, 0x0, 0x80_0000, 1, 1);
    lemma_fraction(marker_material().base_color.green, 126, 0x0, 0x100_0000, 5, 10);
    lemma_fraction(marker_material().base_color.blue, 123, 0x4c_cccd, 0x800_0000, 1, 10);
    lemma_fraction(Single { bits: ILLUMINANCE }, 140, 0xc_a000, 0x400, 9000, 1);
}

/// The light is at 4, 8 and 4 and the camera at 0, 2 and 6, and both look at the cube's centre
/// with the second axis up.
pub proof fn law_places_of_the_scene(x: u32, y: u32, z: u32)
    ensures
        is_fraction(Single { bits: FOUR }, 4, 1),
        is_fraction(Single { bits: EIGHT }, 8, 1),
        is_fraction(Single { bits: TWO }, 2, 1),
        is_fraction(Single { bits: SIX }, 6, 1),
        looking_at_cube(x, y, z).position.x.bits == x,
        looking_at_cube(x, y, z).position.y.bits == y,
        looking_at_cube(x, y, z).position.z.bits == z,
        is_zero(looking_at_cube(x, y, z).target.x),
        is_zero(looking_at_cube(x, y, z).target.y),
        is_zero(looking_at_cube(x, y, z).target.z),
        is_zero(looking_at_cube(x, y, z).up.x),
        is_fraction(looking_at_cube(x, y, z).up.y, 1, 1),
        is_zero(looking_at_cube(x, y, z).up.z),
{
    lemma2_to64();
    lemma_no_fraction();
    lemma_fraction(Single { bits: FOUR }, 129, 0x0, 0x20_0000, 4, 1);
    lemma_fraction(Single { bits: EIGHT }, 130, 0x0, 0x10_0000, 8, 1);
    lemma_fraction(Single { bits: TWO }, 128, 0x0, 0x40_0000, 2, 1);
    lemma_fraction(Single { bits: SIX }, 129, 0x40_0000, 0x20_0000, 6, 1);
    lemma_fraction(Single { bits: ONE }, 127, 0x0, 0x80_0000, 1, 1);
}

/// The pose that leaves everything in its place moves by nothing, does not turn and scales by
/// one.
pub proof fn law_identity_leaves_all_in_place()
    ensures
        ({
            let pose = Transform::identity();
            &&& is_zero(pose.translation.x)
            &&& is_zero(pose.translation.y)
            &&& is_zero(pose.translation.z)
            &&& is_zero(pose.rotation.x)
            &&& is_zero(pose.rotation.y)
            &&& is_zero(pose.rotation.z)
            &&& is_fraction(pose.rotation.w, 1, 1)
            &&& is_fraction(pose.scale.x, 1, 1)
            &&& is_fraction(pose.scale.y, 1, 1)
            &&& is_fraction(pose.scale.z, 1, 1)
        }),
{
    lemma2_to64();
    lemma_no_fraction();
    lemma_fraction(Single { bits: ONE }, 127, 0x0, 0x80_0000, 1, 1);
}

} // verus!

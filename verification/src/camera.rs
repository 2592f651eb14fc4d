//! The camera that orbits the cube.
use crate::accuracy::{
    distance, law_difference_is_accurate, law_product_is_accurate, law_sum_is_accurate,
};
use crate::arithmetic::{
    law_between_finite_is_finite, law_finite_number_has_sums, law_product_keeps_order,
    law_product_keeps_sign, law_product_with_fraction, law_product_with_zero,
    law_small_term_does_not_overflow, law_sum_commutes, law_sum_keeps_order, law_sum_with_zero,
    lemma_zero,
};
use crate::motion::{
    law_drag_turns_pitch_with_it, law_drag_turns_yaw_against_it, law_scroll_moves_camera_with_it,
    stepped, stepped_within,
};
use crate::ray::ONE;
use crate::single::{
    law_clamp_is_within_bounds, law_unsigned_order_is_order_of_bits, law_value_of_fields, Single,
    ZERO,
};
use crate::vector::Vec3;
use vstd::arithmetic::power2::{
    lemma2_to64, lemma_pow2_adds, lemma_pow2_pos, lemma_pow2_strictly_increases, pow2,
};
use vstd::prelude::*;

verus! {

/// The bits of 0.005: radians of yaw or pitch for one unit of dragging.
pub const ORBIT_SENSITIVITY: u32 = 0x3ba3_d70a;

/// The bits of 0.01: distance for one unit of scrolling.
pub const ZOOM_SENSITIVITY: u32 = 0x3c23_d70a;

/// The bits of 1.5: the pitch goes this far up and down.
pub const PITCH_LIMIT: u32 = 0x3fc0_0000;

/// The bits of 2.0, the least distance.
pub const MIN_DISTANCE: u32 = 0x4000_0000;

/// The bits of 20.0, the greatest distance.
pub const MAX_DISTANCE: u32 = 0x41a0_0000;

/// The bits of 0.32, the pitch at the start.
pub const START_PITCH: u32 = 0x3ea3_d70a;

/// The bits of 6.3, the distance at the start.
pub const START_DISTANCE: u32 = 0x40c9_999a;

/// The camera by its spherical coordinates around the cube.
#[derive(Clone, Copy, PartialEq, Eq, Structural, Debug)]
pub struct OrbitCamera {
    pub yaw: Single,
    pub pitch: Single,
    pub distance: Single,
}

/// `x` is a number from `low` to `high`, or no number at all.
pub open spec fn within(x: Single, low: Single, high: Single) -> bool {
    x.nan() || (x.ge(low) && high.ge(x))
}

/// The lower end of the pitch.
pub open spec fn lowest_pitch() -> Single {
    (Single { bits: PITCH_LIMIT }).opposite()
}

/// The upper end of the pitch.
pub open spec fn highest_pitch() -> Single {
    Single { bits: PITCH_LIMIT }
}

/// The lower end of the distance.
pub open spec fn nearest_distance() -> Single {
    Single { bits: MIN_DISTANCE }
}

/// The upper end of the distance.
pub open spec fn farthest_distance() -> Single {
    Single { bits: MAX_DISTANCE }
}

/// The limits as multiples of 2^-149: -1.5, 1.5, 2 and 20.
pub proof fn law_camera_limits()
    ensures
        highest_pitch().value() == 3 * pow2(148),
        lowest_pitch().value() == -3 * pow2(148),
        nearest_distance().value() == 2 * pow2(149),
        farthest_distance().value() == 20 * pow2(149),
        !highest_pitch().nan(),
        !lowest_pitch().nan(),
        !nearest_distance().nan(),
        !farthest_distance().nan(),
{
    lemma2_to64();
    lemma_pow2_adds(126, 22);
    lemma_pow2_adds(127, 22);
    lemma_pow2_adds(130, 19);
    assert(pow2(126) * pow2(22) == pow2(126) * 0x40_0000);
    assert(pow2(127) * pow2(22) == pow2(127) * 0x40_0000);
    assert(pow2(130) * pow2(19) == pow2(130) * 0x8_0000);
    law_value_of_fields(highest_pitch(), 127, 0x40_0000);
    law_value_of_fields(nearest_distance(), 128, 0);
    law_value_of_fields(farthest_distance(), 131, 0x20_0000);
    assert(lowest_pitch().low_bits() == highest_pitch().low_bits());
}

impl OrbitCamera {
    /// The pitch and the distance keep to their limits.
    pub open spec fn wf(self) -> bool {
        &&& within(self.pitch, lowest_pitch(), highest_pitch())
        &&& within(self.distance, nearest_distance(), farthest_distance())
    }

    /// The camera's coordinates are numbers.
    pub open spec fn numeric(self) -> bool {
        !self.yaw.nan() && !self.pitch.nan() && !self.distance.nan()
    }

    /// The camera before the page has moved it.
    pub open spec fn initial() -> OrbitCamera {
        OrbitCamera {
            yaw: Single { bits: ZERO },
            pitch: Single { bits: START_PITCH },
            distance: Single { bits: START_DISTANCE },
        }
    }

    /// The camera turned by a drag. The yaw goes against it, and the pitch goes with it up
    /// to its limits.
    pub open spec fn turned(self, delta_yaw: Single, delta_pitch: Single) -> OrbitCamera {
        let sensitivity = Single { bits: ORBIT_SENSITIVITY };
        OrbitCamera {
            yaw: self.yaw.difference(delta_yaw.product(sensitivity)),
            pitch: self.pitch.sum(delta_pitch.product(sensitivity)).limited(
                lowest_pitch(),
                highest_pitch(),
            ),
            ..self
        }
    }

    /// The camera moved by scrolling. The distance goes with it up to its limits.
    pub open spec fn moved(self, amount: Single) -> OrbitCamera {
        let sensitivity = Single { bits: ZOOM_SENSITIVITY };
        OrbitCamera {
            distance: self.distance.sum(amount.product(sensitivity)).limited(
                nearest_distance(),
                farthest_distance(),
            ),
            ..self
        }
    }

    /// Where the camera is, given the sine and the cosine of its yaw and of its pitch.
    pub open spec fn position(
        self,
        yaw_sin: Single,
        yaw_cos: Single,
        pitch_sin: Single,
        pitch_cos: Single,
    ) -> Vec3 {
        Vec3 {
            x: self.distance.product(pitch_cos).product(yaw_sin),
            y: self.distance.product(pitch_sin),
            z: self.distance.product(pitch_cos).product(yaw_cos),
        }
    }

    /// Turns the camera by a drag.
    pub fn orbit(&mut self, delta_yaw: Single, delta_pitch: Single)
        ensures
            *final(self) == old(self).turned(delta_yaw, delta_pitch),
            old(self).wf() ==> final(self).wf(),
            old(self).numeric() && delta_yaw.finite() && delta_pitch.finite()
                ==> final(self).numeric(),
            old(self).yaw.finite() && delta_yaw.finite() ==> stepped(
                200,
                old(self).yaw,
                final(self).yaw,
                -delta_yaw.value(),
            ),
            old(self).wf() && !old(self).pitch.nan() && !delta_pitch.nan() ==> stepped_within(
                200,
                300,
                old(self).pitch,
                final(self).pitch,
                delta_pitch,
                lowest_pitch(),
                highest_pitch(),
            ),
            final(self).distance == old(self).distance,
    {
        proof {
            if old(self).yaw.finite() && delta_yaw.finite() {
                law_drag_turns_yaw_against_it(*old(self), delta_yaw, delta_pitch);
            }
            if old(self).wf() && !old(self).pitch.nan() && !delta_pitch.nan() {
                law_drag_turns_pitch_with_it(*old(self), delta_yaw, delta_pitch);
            }
            if old(self).numeric() && delta_yaw.finite() && delta_pitch.finite() {
                law_drag_keeps_numbers(*old(self), delta_yaw, delta_pitch);
            }
        }
        let sensitivity = Single::from_bits(ORBIT_SENSITIVITY);
        let limit = Single::from_bits(PITCH_LIMIT);
        let pitch = self.pitch.plus(delta_pitch.times(sensitivity));
        proof {
            law_camera_limits();
            law_clamp_is_within_bounds(pitch, lowest_pitch(), highest_pitch());
        }
        self.yaw = self.yaw.minus(delta_yaw.times(sensitivity));
        self.pitch = pitch.clamp(limit.neg(), limit);
    }

    /// Moves the camera by scrolling.
    pub fn zoom(&mut self, amount: Single)
        ensures
            *final(self) == old(self).moved(amount),
            old(self).wf() ==> final(self).wf(),
            old(self).numeric() && amount.finite() ==> final(self).numeric(),
            old(self).wf() && !old(self).distance.nan() && !amount.nan() ==> stepped_within(
                100,
                2000,
                old(self).distance,
                final(self).distance,
                amount,
                nearest_distance(),
                farthest_distance(),
            ),
            final(self).yaw == old(self).yaw && final(self).pitch == old(self).pitch,
    {
        proof {
            if old(self).wf() && !old(self).distance.nan() && !amount.nan() {
                law_scroll_moves_camera_with_it(*old(self), amount);
            }
            if old(self).numeric() && amount.finite() {
                law_scroll_keeps_numbers(*old(self), amount);
            }
        }
        let distance = self.distance.plus(amount.times(Single::from_bits(ZOOM_SENSITIVITY)));
        proof {
            law_camera_limits();
            law_clamp_is_within_bounds(distance, nearest_distance(), farthest_distance());
        }
        self.distance = distance.clamp(
            Single::from_bits(MIN_DISTANCE),
            Single::from_bits(MAX_DISTANCE),
        );
    }

    /// Where the camera is, given the sine and the cosine of its yaw and of its pitch.
    pub fn orbit_camera(
        &self,
        yaw_sin: Single,
        yaw_cos: Single,
        pitch_sin: Single,
        pitch_cos: Single,
    ) -> (r: Vec3)
        ensures
            r == self.position(yaw_sin, yaw_cos, pitch_sin, pitch_cos),
    {
        Vec3::new(
            self.distance.times(pitch_cos).times(yaw_sin),
            self.distance.times(pitch_sin),
            self.distance.times(pitch_cos).times(yaw_cos),
        )
    }
}

/// A number and a step that is scaled from a finite input have a sum.
proof fn lemma_step_gives_number(x: Single, delta: Single, sensitivity: Single)
    requires
        !x.nan(),
        delta.finite(),
        sensitivity.finite(),
        0 < sensitivity.value() <= pow2(149),
    ensures
        !x.sum(delta.product(sensitivity)).nan(),
        !x.difference(delta.product(sensitivity)).nan(),
{
    let step = delta.product(sensitivity);
    lemma_zero(sensitivity);
    law_product_with_fraction(delta, sensitivity);
    assert(step.opposite().low_bits() == step.low_bits());
    law_finite_number_has_sums(step, x);
    law_finite_number_has_sums(step.opposite(), x);
    law_sum_commutes(step, x);
    law_sum_commutes(step.opposite(), x);
}

/// After a drag the camera still keeps to its limits.
pub proof fn law_drag_keeps_limits(camera: OrbitCamera, delta_yaw: Single, delta_pitch: Single)
    requires
        camera.wf(),
    ensures
        camera.turned(delta_yaw, delta_pitch).wf(),
{
    law_camera_limits();
    lemma_pow2_pos(148);
}

/// After a scroll the camera still keeps to its limits.
pub proof fn law_scroll_keeps_limits(camera: OrbitCamera, amount: Single)
    requires
        camera.wf(),
    ensures
        camera.moved(amount).wf(),
{
    law_camera_limits();
    lemma_pow2_pos(149);
}

/// After a finite drag the camera's coordinates are still numbers.
pub proof fn law_drag_keeps_numbers(camera: OrbitCamera, delta_yaw: Single, delta_pitch: Single)
    requires
        camera.numeric(),
        delta_yaw.finite(),
        delta_pitch.finite(),
    ensures
        camera.turned(delta_yaw, delta_pitch).numeric(),
{
    let sensitivity = Single { bits: ORBIT_SENSITIVITY };
    lemma_sensitivity();
    law_camera_limits();
    lemma_step_gives_number(camera.yaw, delta_yaw, sensitivity);
    lemma_step_gives_number(camera.pitch, delta_pitch, sensitivity);
}

/// After a finite scroll the camera's coordinates are still numbers.
pub proof fn law_scroll_keeps_numbers(camera: OrbitCamera, amount: Single)
    requires
        camera.numeric(),
        amount.finite(),
    ensures
        camera.moved(amount).numeric(),
{
    lemma_sensitivity();
    law_camera_limits();
    lemma_step_gives_number(camera.distance, amount, Single { bits: ZOOM_SENSITIVITY });
}

/// The camera keeps to its limits from the start, and its coordinates are numbers.
pub proof fn law_initial_camera_keeps_limits()
    ensures
        OrbitCamera::initial().wf(),
        OrbitCamera::initial().numeric(),
{
    let camera = OrbitCamera::initial();
    law_camera_limits();
    law_unsigned_order_is_order_of_bits(camera.pitch, highest_pitch());
    law_unsigned_order_is_order_of_bits(highest_pitch(), camera.pitch);
    law_unsigned_order_is_order_of_bits(camera.distance, nearest_distance());
    law_unsigned_order_is_order_of_bits(farthest_distance(), camera.distance);
}

/// Dragging up never lowers the pitch, and dragging down never raises it.
pub proof fn law_pitch_goes_with_drag(camera: OrbitCamera, delta_yaw: Single, delta_pitch: Single)
    requires
        camera.wf(),
        !camera.pitch.nan(),
        !delta_pitch.nan(),
    ensures
        delta_pitch.value() >= 0 ==> camera.turned(delta_yaw, delta_pitch).pitch.ge(camera.pitch),
        delta_pitch.value() <= 0 ==> camera.pitch.ge(camera.turned(delta_yaw, delta_pitch).pitch),
{
    law_camera_limits();
    law_between_finite_is_finite(lowest_pitch(), camera.pitch, highest_pitch());
    let sensitivity = Single { bits: ORBIT_SENSITIVITY };
    law_unsigned_order_is_order_of_bits(Single { bits: ZERO }, sensitivity);
    lemma_step_goes_with_delta(camera.pitch, delta_pitch, sensitivity);
}

/// Scrolling out never brings the camera nearer, and scrolling in never takes it farther.
pub proof fn law_distance_goes_with_scrolling(camera: OrbitCamera, amount: Single)
    requires
        camera.wf(),
        !camera.distance.nan(),
        !amount.nan(),
    ensures
        amount.value() >= 0 ==> camera.moved(amount).distance.ge(camera.distance),
        amount.value() <= 0 ==> camera.distance.ge(camera.moved(amount).distance),
{
    law_camera_limits();
    law_between_finite_is_finite(nearest_distance(), camera.distance, farthest_distance());
    let sensitivity = Single { bits: ZOOM_SENSITIVITY };
    law_unsigned_order_is_order_of_bits(Single { bits: ZERO }, sensitivity);
    lemma_step_goes_with_delta(camera.distance, amount, sensitivity);
}

/// Of two inputs the larger gives no smaller sum, and no larger difference.
proof fn lemma_step_keeps_order(x: Single, a: Single, b: Single, sensitivity: Single)
    requires
        !x.nan(),
        !x.infinite(),
        b.ge(a),
        !sensitivity.nan(),
        !sensitivity.infinite(),
        sensitivity.value() > 0,
    ensures
        x.sum(b.product(sensitivity)).ge(x.sum(a.product(sensitivity))),
        x.difference(a.product(sensitivity)).ge(x.difference(b.product(sensitivity))),
{
    let (step_a, step_b) = (a.product(sensitivity), b.product(sensitivity));
    lemma_zero(sensitivity);
    law_product_keeps_sign(a, sensitivity);
    law_product_keeps_sign(b, sensitivity);
    law_product_keeps_order(a, b, sensitivity);
    assert(step_a.opposite().low_bits() == step_a.low_bits());
    assert(step_b.opposite().low_bits() == step_b.low_bits());
    assert(step_a.opposite().value() == -step_a.value());
    assert(step_b.opposite().value() == -step_b.value());
    law_finite_number_has_sums(x, step_a);
    law_finite_number_has_sums(x, step_b);
    law_finite_number_has_sums(x, step_a.opposite());
    law_finite_number_has_sums(x, step_b.opposite());
    law_sum_commutes(x, step_a);
    law_sum_commutes(x, step_b);
    law_sum_commutes(x, step_a.opposite());
    law_sum_commutes(x, step_b.opposite());
    law_sum_keeps_order(step_a, step_b, x);
    law_sum_keeps_order(step_b.opposite(), step_a.opposite(), x);
}

/// Of two drags the one farther up leaves no lower pitch, and the one farther along leaves no
/// larger yaw.
pub proof fn law_larger_drag_turns_no_less(
    camera: OrbitCamera,
    a_yaw: Single,
    a_pitch: Single,
    b_yaw: Single,
    b_pitch: Single,
)
    requires
        camera.wf(),
        camera.numeric(),
        b_yaw.ge(a_yaw),
        b_pitch.ge(a_pitch),
    ensures
        camera.turned(b_yaw, b_pitch).pitch.ge(camera.turned(a_yaw, a_pitch).pitch),
        !camera.yaw.infinite() ==> camera.turned(a_yaw, a_pitch).yaw.ge(
            camera.turned(b_yaw, b_pitch).yaw,
        ),
{
    let sensitivity = Single { bits: ORBIT_SENSITIVITY };
    lemma_sensitivity();
    law_camera_limits();
    law_between_finite_is_finite(lowest_pitch(), camera.pitch, highest_pitch());
    lemma_step_keeps_order(camera.pitch, a_pitch, b_pitch, sensitivity);
    if !camera.yaw.infinite() {
        lemma_step_keeps_order(camera.yaw, a_yaw, b_yaw, sensitivity);
    }
}

/// Of two scrolls the one farther out leaves no smaller distance.
pub proof fn law_larger_scroll_moves_no_less(camera: OrbitCamera, a: Single, b: Single)
    requires
        camera.wf(),
        !camera.distance.nan(),
        b.ge(a),
    ensures
        camera.moved(b).distance.ge(camera.moved(a).distance),
{
    lemma_sensitivity();
    law_camera_limits();
    law_between_finite_is_finite(nearest_distance(), camera.distance, farthest_distance());
    lemma_step_keeps_order(camera.distance, a, b, Single { bits: ZOOM_SENSITIVITY });
}

/// A drag and a scroll of nothing leave the camera where it is.
pub proof fn law_camera_rests_without_input(camera: OrbitCamera, delta_yaw: Single, delta: Single)
    requires
        camera.wf(),
        !camera.yaw.nan(),
        !camera.pitch.nan(),
        !camera.distance.nan(),
        !delta_yaw.nan(),
        !delta.nan(),
        delta_yaw.value() == 0,
        delta.value() == 0,
    ensures
        camera.turned(delta_yaw, delta).yaw.value() == camera.yaw.value(),
        camera.turned(delta_yaw, delta).pitch.value() == camera.pitch.value(),
        camera.moved(delta).distance.value() == camera.distance.value(),
{
    law_pitch_goes_with_drag(camera, delta_yaw, delta);
    law_distance_goes_with_scrolling(camera, delta);
    lemma_yaw_rests(camera.yaw, delta_yaw);
}

proof fn lemma_yaw_rests(yaw: Single, delta: Single)
    requires
        !yaw.nan(),
        !delta.nan(),
        delta.value() == 0,
    ensures
        yaw.difference(delta.product(Single { bits: ORBIT_SENSITIVITY })).value() == yaw.value(),
{
    let sensitivity = Single { bits: ORBIT_SENSITIVITY };
    law_product_with_zero(delta, sensitivity);
    law_sum_with_zero(yaw, delta.product(sensitivity).opposite());
}

/// What is added to a number goes with the input that it is scaled from.
proof fn lemma_step_goes_with_delta(x: Single, delta: Single, sensitivity: Single)
    requires
        !x.nan(),
        !x.infinite(),
        !delta.nan(),
        !sensitivity.nan(),
        !sensitivity.infinite(),
        sensitivity.value() > 0,
    ensures
        !x.sum(delta.product(sensitivity)).nan(),
        delta.value() >= 0 ==> x.sum(delta.product(sensitivity)).value() >= x.value(),
        delta.value() <= 0 ==> x.sum(delta.product(sensitivity)).value() <= x.value(),
{
    let step = delta.product(sensitivity);
    let zero = Single { bits: ZERO };
    law_product_keeps_sign(delta, sensitivity);
    law_finite_number_has_sums(x, step);
    law_sum_with_zero(x, zero);
    law_sum_commutes(x, zero);
    law_sum_commutes(x, step);
    law_unsigned_order_is_order_of_bits(zero, zero);
    if delta.value() >= 0 {
        law_sum_keeps_order(zero, step, x);
    }
    if delta.value() <= 0 {
        law_sum_keeps_order(step, zero, x);
    }
}

/// How far two steps may be from one of both together, in units of one part in 2^24: each
/// rounding adds its result, and one that underflows half of 2^-149. The steps are `a` and
/// `b` and, taken at once, `ab`; they lead to `first`, then to `both`, and at once to `once`.
pub open spec fn slack(
    a: Single,
    b: Single,
    ab: Single,
    first: Single,
    both: Single,
    once: Single,
) -> int {
    a.abs_value() + b.abs_value() + 3 * ab.abs_value() + first.abs_value() + both.abs_value()
        + once.abs_value() + 0x200_0000
}

/// The way of one input and then of another is that of both together, but for rounding. The
/// ways are in units of one part in `w`.
pub(crate) proof fn lemma_ways_add_up(
    a: int,
    b: int,
    ab: int,
    scale: int,
    way_a: int,
    way_b: int,
    way_ab: int,
    w: int,
)
    requires
        w > 0,
        scale > 0,
        0x100_0000 * distance(a * scale, way_a * w) <= distance(way_a, 0) * w + 0x80_0000 * w,
        0x100_0000 * distance(b * scale, way_b * w) <= distance(way_b, 0) * w + 0x80_0000 * w,
        0x100_0000 * distance(ab * scale, way_ab * w) <= distance(way_ab, 0) * w + 0x80_0000 * w,
        0x100_0000 * distance(a + b, ab) <= distance(ab, 0),
    ensures
        0x100_0000 * distance(way_a + way_b, way_ab) <= distance(way_a, 0) + distance(way_b, 0) + 3
            * distance(way_ab, 0) + 0x200_0000,
{
    let (total, size) = (a + b - ab, distance(ab, 0));
    assert(total * scale == a * scale + b * scale - ab * scale) by (nonlinear_arith)
        requires
            total == a + b - ab,
    ;
    assert(0x100_0000 * (total * scale) <= size * scale && -(0x100_0000 * (total * scale)) <= size
        * scale) by (nonlinear_arith)
        requires
            0x100_0000 * total <= size,
            -(0x100_0000 * total) <= size,
            scale > 0,
    ;
    assert(size * scale == distance(ab * scale, 0)) by (nonlinear_arith)
        requires
            size == (if ab <= 0 { -ab } else { ab }),
            scale > 0,
            distance(ab * scale, 0) == (if ab * scale <= 0 { -(ab * scale) } else { ab * scale }),
    ;
    let (x, y, z) = (distance(way_a, 0), distance(way_b, 0), distance(way_ab, 0));
    assert(z * w == distance(way_ab * w, 0)) by (nonlinear_arith)
        requires
            z == (if way_ab <= 0 { -way_ab } else { way_ab }),
            w > 0,
            distance(way_ab * w, 0) == (if way_ab * w <= 0 { -(way_ab * w) } else { way_ab * w }),
    ;
    let gap = distance(way_a + way_b, way_ab);
    let off = way_a + way_b - way_ab;
    assert(off * w == way_a * w + way_b * w - way_ab * w) by (nonlinear_arith)
        requires
            off == way_a + way_b - way_ab,
    ;
    let (xw, yw, zw) = (x * w, y * w, z * w);
    assert(0x100_0000 * (off * w) <= xw + yw + 3 * zw + 0x200_0000 * w);
    assert(-(0x100_0000 * (off * w)) <= xw + yw + 3 * zw + 0x200_0000 * w);
    assert(0x100_0000 * off <= x + y + 3 * z + 0x200_0000 && -(0x100_0000 * off) <= x + y + 3 * z
        + 0x200_0000) by (nonlinear_arith)
        requires
            0x100_0000 * (off * w) <= x * w + y * w + 3 * (z * w) + 0x200_0000 * w,
            -(0x100_0000 * (off * w)) <= x * w + y * w + 3 * (z * w) + 0x200_0000 * w,
            w > 0,
    ;
}

/// The steps of two inputs add up to that of their sum, but for rounding.
proof fn lemma_steps_add_up(a: Single, b: Single, sensitivity: Single)
    requires
        a.finite(),
        b.finite(),
        a.sum(b).finite(),
        sensitivity.finite(),
        sensitivity.value() > 0,
        sensitivity.value() <= pow2(149),
    ensures
        a.product(sensitivity).finite(),
        b.product(sensitivity).finite(),
        a.sum(b).product(sensitivity).finite(),
        ({
            let (step_a, step_b) = (a.product(sensitivity), b.product(sensitivity));
            let step_ab = a.sum(b).product(sensitivity);
            0x100_0000 * distance(step_a.value() + step_b.value(), step_ab.value())
                <= step_a.abs_value() + step_b.abs_value() + 3 * step_ab.abs_value() + 0x200_0000
        }),
{
    let ab = a.sum(b);
    lemma_pow2_pos(149);
    lemma_zero(sensitivity);
    law_product_with_fraction(a, sensitivity);
    law_product_with_fraction(b, sensitivity);
    law_product_with_fraction(ab, sensitivity);
    law_sum_is_accurate(a, b);
    law_product_is_accurate(a, sensitivity);
    law_product_is_accurate(b, sensitivity);
    law_product_is_accurate(ab, sensitivity);
    lemma_zero(ab);
    lemma_zero(a.product(sensitivity));
    lemma_zero(b.product(sensitivity));
    lemma_zero(ab.product(sensitivity));
    lemma_ways_add_up(
        a.value(),
        b.value(),
        ab.value(),
        sensitivity.value(),
        a.product(sensitivity).value(),
        b.product(sensitivity).value(),
        ab.product(sensitivity).value(),
        pow2(149) as int,
    );
}

/// Two steps with one after the other lead to where one step of both leads, but for rounding.
proof fn lemma_two_steps(x: Single, a: Single, b: Single, ab: Single)
    requires
        x.finite(),
        a.finite(),
        b.finite(),
        ab.finite(),
        x.sum(a).finite(),
        x.sum(a).sum(b).finite(),
        x.sum(ab).finite(),
        0x100_0000 * distance(a.value() + b.value(), ab.value()) <= a.abs_value() + b.abs_value()
            + 3 * ab.abs_value() + 0x200_0000,
    ensures
        0x100_0000 * distance(x.sum(a).sum(b).value(), x.sum(ab).value()) <= slack(
            a,
            b,
            ab,
            x.sum(a),
            x.sum(a).sum(b),
            x.sum(ab),
        ),
{
    law_sum_is_accurate(x, a);
    law_sum_is_accurate(x.sum(a), b);
    law_sum_is_accurate(x, ab);
}

/// Two drags in turn yaw the camera as one drag of both does, but for rounding.
pub proof fn law_two_drags_yaw_as_one(camera: OrbitCamera, a: Single, b: Single, pitch: Single)
    requires
        ({
            let sensitivity = Single { bits: ORBIT_SENSITIVITY };
            &&& camera.yaw.finite()
            &&& a.finite() && b.finite() && a.sum(b).finite()
            &&& camera.turned(a, pitch).yaw.finite()
            &&& camera.turned(a, pitch).turned(b, pitch).yaw.finite()
            &&& camera.turned(a.sum(b), pitch).yaw.finite()
        }),
    ensures
        ({
            let sensitivity = Single { bits: ORBIT_SENSITIVITY };
            let first = camera.turned(a, pitch).yaw;
            let both = camera.turned(a, pitch).turned(b, pitch).yaw;
            let once = camera.turned(a.sum(b), pitch).yaw;
            0x100_0000 * distance(both.value(), once.value()) <= slack(
                a.product(sensitivity),
                b.product(sensitivity),
                a.sum(b).product(sensitivity),
                first,
                both,
                once,
            )
        }),
{
    let sensitivity = Single { bits: ORBIT_SENSITIVITY };
    lemma_sensitivity();
    lemma_steps_add_up(a, b, sensitivity);
    lemma_two_steps_back(
        camera.yaw,
        a.product(sensitivity),
        b.product(sensitivity),
        a.sum(b).product(sensitivity),
    );
}

/// The sensitivities lie between zero and one.
proof fn lemma_sensitivity()
    ensures
        (Single { bits: ORBIT_SENSITIVITY }).finite(),
        0 < (Single { bits: ORBIT_SENSITIVITY }).value() <= pow2(149),
        (Single { bits: ZOOM_SENSITIVITY }).finite(),
        0 < (Single { bits: ZOOM_SENSITIVITY }).value() <= pow2(149),
{
    let (zero, one) = (Single { bits: ZERO }, Single { bits: ONE });
    let (orbit, zoom) = (Single { bits: ORBIT_SENSITIVITY }, Single { bits: ZOOM_SENSITIVITY });
    law_unsigned_order_is_order_of_bits(zero, orbit);
    law_unsigned_order_is_order_of_bits(zero, zoom);
    law_unsigned_order_is_order_of_bits(orbit, one);
    law_unsigned_order_is_order_of_bits(zoom, one);
    lemma2_to64();
    lemma_pow2_adds(23, 126);
    law_value_of_fields(one, 127, 0);
}

/// The same of steps that are taken back.
proof fn lemma_two_steps_back(x: Single, a: Single, b: Single, ab: Single)
    requires
        x.finite(),
        a.finite(),
        b.finite(),
        ab.finite(),
        x.difference(a).finite(),
        x.difference(a).difference(b).finite(),
        x.difference(ab).finite(),
        0x100_0000 * distance(a.value() + b.value(), ab.value()) <= a.abs_value() + b.abs_value()
            + 3 * ab.abs_value() + 0x200_0000,
    ensures
        0x100_0000 * distance(x.difference(a).difference(b).value(), x.difference(ab).value())
            <= slack(
            a,
            b,
            ab,
            x.difference(a),
            x.difference(a).difference(b),
            x.difference(ab),
        ),
{
    law_difference_is_accurate(x, a);
    law_difference_is_accurate(x.difference(a), b);
    law_difference_is_accurate(x, ab);
}

/// Two drags in turn pitch the camera as one drag of both does, but for rounding, where the
/// first does not meet a limit.
pub proof fn law_two_drags_pitch_as_one(camera: OrbitCamera, a: Single, b: Single, yaw: Single)
    requires
        ({
            let sensitivity = Single { bits: ORBIT_SENSITIVITY };
            let first = camera.pitch.sum(a.product(sensitivity));
            &&& camera.wf() && !camera.pitch.nan()
            &&& a.finite() && b.finite() && a.sum(b).finite()
            &&& within(first, lowest_pitch(), highest_pitch())
        }),
    ensures
        ({
            let sensitivity = Single { bits: ORBIT_SENSITIVITY };
            let first = camera.pitch.sum(a.product(sensitivity));
            let both = camera.turned(yaw, a).turned(yaw, b).pitch;
            let once = camera.turned(yaw, a.sum(b)).pitch;
            &&& camera.turned(yaw, a).pitch == first
            &&& 0x100_0000 * distance(both.value(), once.value()) <= slack(
                a.product(sensitivity),
                b.product(sensitivity),
                a.sum(b).product(sensitivity),
                first,
                first.sum(b.product(sensitivity)),
                camera.pitch.sum(a.sum(b).product(sensitivity)),
            )
        }),
{
    let sensitivity = Single { bits: ORBIT_SENSITIVITY };
    lemma_sensitivity();
    law_camera_limits();
    lemma_pow2_pos(148);
    let (step_a, step_b) = (a.product(sensitivity), b.product(sensitivity));
    let step_ab = a.sum(b).product(sensitivity);
    let first = camera.pitch.sum(step_a);
    lemma_steps_add_up(a, b, sensitivity);
    law_between_finite_is_finite(lowest_pitch(), camera.pitch, highest_pitch());
    law_finite_number_has_sums(camera.pitch, step_a);
    law_between_finite_is_finite(lowest_pitch(), first, highest_pitch());
    assert(first.limited(lowest_pitch(), highest_pitch()) == first);
    lemma_limits_are_small();
    lemma_zero(camera.pitch);
    lemma_zero(first);
    law_small_term_does_not_overflow(first, step_b);
    law_small_term_does_not_overflow(camera.pitch, step_ab);
    lemma_two_steps(camera.pitch, step_a, step_b, step_ab);
    lemma_limiting_keeps_near(
        first.sum(step_b),
        camera.pitch.sum(step_ab),
        lowest_pitch(),
        highest_pitch(),
    );
}

/// Two scrolls in turn move the camera as one scroll of both does, but for rounding, where the
/// first does not meet a limit.
pub proof fn law_two_scrolls_move_as_one(camera: OrbitCamera, a: Single, b: Single)
    requires
        ({
            let sensitivity = Single { bits: ZOOM_SENSITIVITY };
            let first = camera.distance.sum(a.product(sensitivity));
            &&& camera.wf() && !camera.distance.nan()
            &&& a.finite() && b.finite() && a.sum(b).finite()
            &&& within(first, nearest_distance(), farthest_distance())
        }),
    ensures
        ({
            let sensitivity = Single { bits: ZOOM_SENSITIVITY };
            let first = camera.distance.sum(a.product(sensitivity));
            let both = camera.moved(a).moved(b).distance;
            let once = camera.moved(a.sum(b)).distance;
            &&& camera.moved(a).distance == first
            &&& 0x100_0000 * distance(both.value(), once.value()) <= slack(
                a.product(sensitivity),
                b.product(sensitivity),
                a.sum(b).product(sensitivity),
                first,
                first.sum(b.product(sensitivity)),
                camera.distance.sum(a.sum(b).product(sensitivity)),
            )
        }),
{
    let sensitivity = Single { bits: ZOOM_SENSITIVITY };
    lemma_sensitivity();
    law_camera_limits();
    lemma_pow2_pos(149);
    lemma_steps_add_up(a, b, sensitivity);
    let (step_a, step_b) = (a.product(sensitivity), b.product(sensitivity));
    let step_ab = a.sum(b).product(sensitivity);
    let first = camera.distance.sum(step_a);
    law_between_finite_is_finite(nearest_distance(), camera.distance, farthest_distance());
    law_finite_number_has_sums(camera.distance, step_a);
    law_between_finite_is_finite(nearest_distance(), first, farthest_distance());
    assert(first.limited(nearest_distance(), farthest_distance()) == first);
    lemma_limits_are_small();
    lemma_zero(camera.distance);
    lemma_zero(first);
    law_small_term_does_not_overflow(first, step_b);
    law_small_term_does_not_overflow(camera.distance, step_ab);
    lemma_two_steps(camera.distance, step_a, step_b, step_ab);
    lemma_limiting_keeps_near(
        first.sum(step_b),
        camera.distance.sum(step_ab),
        nearest_distance(),
        farthest_distance(),
    );
}

/// The limits are small beside the greatest finite number.
proof fn lemma_limits_are_small()
    ensures
        2 * (3 * pow2(148)) < pow2(253),
        2 * (20 * pow2(149)) < pow2(253),
{
    lemma2_to64();
    lemma_pow2_pos(149);
    lemma_pow2_adds(148, 1);
    lemma_pow2_adds(149, 6);
    lemma_pow2_strictly_increases(155, 253);
}

/// Limiting two numbers does not take them apart.
proof fn lemma_limiting_keeps_near(x: Single, y: Single, low: Single, high: Single)
    requires
        !x.nan(),
        !y.nan(),
        high.ge(low),
    ensures
        distance(x.limited(low, high).value(), y.limited(low, high).value()) <= distance(
            x.value(),
            y.value(),
        ),
{
}

impl Default for OrbitCamera {
    fn default() -> (r: OrbitCamera)
        ensures
            r == OrbitCamera::initial(),
            r.wf(),
    {
        proof {
            law_initial_camera_keeps_limits();
        }
        OrbitCamera {
            yaw: Single::from_bits(ZERO),
            pitch: Single::from_bits(START_PITCH),
            distance: Single::from_bits(START_DISTANCE),
        }
    }
}

} // verus!

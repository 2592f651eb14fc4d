//! What each operation gives, to the last bit: every step of it gives the closest number that
//! there is.
use crate::arithmetic::{
    law_count_is_finite, law_product_with_fraction, law_small_term_does_not_overflow,
    law_sum_commutes, lemma_zero,
};
use crate::camera::{
    farthest_distance, highest_pitch, lowest_pitch, nearest_distance, OrbitCamera,
    ORBIT_SENSITIVITY, ZOOM_SENSITIVITY,
};
use crate::closest::{
    as_close, law_difference_is_closest, law_product_is_closest, law_quotient_is_closest,
    law_sum_is_closest,
};
use crate::controls::{Controls, TILT};
use crate::motion::{lemma_sensitivities, lemma_tilt};
use crate::pixels::law_whole_part;
use crate::ray::ONE;
use crate::single::{lemma_opposite, Single, ZERO};
use crate::stats::{lemma_window_seconds, FrameStats};
use crate::vector::Vec2;
use crate::viewport::{lemma_powers, placed, position_in, ONE_HALF};
use crate::window::{CanvasSize, WindowResolution};
use vstd::arithmetic::power2::{lemma_pow2_pos, lemma_pow2_strictly_increases, pow2};
use vstd::prelude::*;

verus! {

/// No number is closer to an exact value than `r`, and of two that are as close `r` is the even
/// one. The exact value is that of `exact` divided by `den`.
pub open spec fn closest(r: Single, exact: int, den: int) -> bool {
    &&& !r.nan()
    &&& forall|x: Single|
        #![trigger x.value()]
        !x.nan() ==> as_close(exact, r.value() * den, x.value() * den, r.low_bits() % 2 == 0)
}

proof fn lemma_closest_sum(a: Single, b: Single)
    requires
        a.finite(),
        b.finite(),
    ensures
        closest(a.sum(b), a.value() + b.value(), 1),
        closest(a.difference(b), a.value() - b.value(), 1),
{
    let (r, d) = (a.sum(b), a.difference(b));
    law_sum_is_closest(a, b, a);
    law_difference_is_closest(a, b, a);
    assert forall|x: Single| #![trigger x.value()] !x.nan() implies as_close(
        a.value() + b.value(),
        r.value() * 1,
        x.value() * 1,
        r.low_bits() % 2 == 0,
    ) by {
        law_sum_is_closest(a, b, x);
    }
    assert forall|x: Single| #![trigger x.value()] !x.nan() implies as_close(
        a.value() - b.value(),
        d.value() * 1,
        x.value() * 1,
        d.low_bits() % 2 == 0,
    ) by {
        law_difference_is_closest(a, b, x);
    }
}

proof fn lemma_closest_product(a: Single, b: Single)
    requires
        a.finite(),
        b.finite(),
    ensures
        closest(a.product(b), a.value() * b.value(), pow2(149) as int),
{
    let r = a.product(b);
    law_product_is_closest(a, b, a);
    assert forall|x: Single| #![trigger x.value()] !x.nan() implies as_close(
        a.value() * b.value(),
        r.value() * pow2(149),
        x.value() * pow2(149),
        r.low_bits() % 2 == 0,
    ) by {
        law_product_is_closest(a, b, x);
    }
}

proof fn lemma_closest_quotient(a: Single, b: Single)
    requires
        a.finite(),
        b.finite(),
        b.value() != 0,
    ensures
        closest(a.quotient(b), a.value() * pow2(149), b.value()),
{
    let r = a.quotient(b);
    law_quotient_is_closest(a, b, a);
    assert forall|x: Single| #![trigger x.value()] !x.nan() implies as_close(
        a.value() * pow2(149),
        r.value() * b.value(),
        x.value() * b.value(),
        r.low_bits() % 2 == 0,
    ) by {
        law_quotient_is_closest(a, b, x);
    }
}

/// The yaw after a drag is the closest number to the yaw before less a step, and the step is the
/// closest number to the drag times the sensitivity.
pub proof fn law_yaw_is_closest(camera: OrbitCamera, delta_yaw: Single, delta_pitch: Single)
    requires
        camera.yaw.finite(),
        delta_yaw.finite(),
    ensures
        exists|step: Single|
            {
                &&& #[trigger] closest(
                    step,
                    delta_yaw.value() * (Single { bits: ORBIT_SENSITIVITY }).value(),
                    pow2(149) as int,
                )
                &&& closest(
                    camera.turned(delta_yaw, delta_pitch).yaw,
                    camera.yaw.value() - step.value(),
                    1,
                )
            },
{
    let s = Single { bits: ORBIT_SENSITIVITY };
    let step = delta_yaw.product(s);
    lemma_sensitivities();
    lemma_zero(s);
    law_product_with_fraction(delta_yaw, s);
    lemma_closest_product(delta_yaw, s);
    lemma_closest_sum(camera.yaw, step);
}

/// `after` is the closest number to `before` and a step, brought between two bounds, and the
/// step is the closest number to an input times a sensitivity.
pub open spec fn closest_within(
    before: Single,
    after: Single,
    delta: Single,
    sensitivity: Single,
    low: Single,
    high: Single,
) -> bool {
    exists|step: Single, free: Single|
        {
            &&& #[trigger] closest(
                step,
                delta.value() * sensitivity.value(),
                pow2(149) as int,
            )
            &&& #[trigger] closest(free, before.value() + step.value(), 1)
            &&& after == free.limited(low, high)
        }
}

proof fn lemma_closest_within(x: Single, d: Single, s: Single, low: Single, high: Single)
    requires
        x.finite(),
        d.finite(),
        s.finite(),
        0 < s.value() <= pow2(149),
    ensures
        closest_within(x, x.sum(d.product(s)).limited(low, high), d, s, low, high),
{
    let step = d.product(s);
    lemma_zero(s);
    law_product_with_fraction(d, s);
    lemma_closest_product(d, s);
    lemma_closest_sum(x, step);
}

/// The pitch after a drag is the closest number to the pitch before and a step, brought between
/// its limits.
pub proof fn law_pitch_is_closest(camera: OrbitCamera, delta_yaw: Single, delta_pitch: Single)
    requires
        camera.pitch.finite(),
        delta_pitch.finite(),
    ensures
        closest_within(
            camera.pitch,
            camera.turned(delta_yaw, delta_pitch).pitch,
            delta_pitch,
            Single { bits: ORBIT_SENSITIVITY },
            lowest_pitch(),
            highest_pitch(),
        ),
{
    lemma_sensitivities();
    lemma_closest_within(
        camera.pitch,
        delta_pitch,
        Single { bits: ORBIT_SENSITIVITY },
        lowest_pitch(),
        highest_pitch(),
    );
}

/// The distance after a scroll is the closest number to the distance before and a step, brought
/// between its limits.
pub proof fn law_distance_is_closest(camera: OrbitCamera, amount: Single)
    requires
        camera.distance.finite(),
        amount.finite(),
    ensures
        closest_within(
            camera.distance,
            camera.moved(amount).distance,
            amount,
            Single { bits: ZOOM_SENSITIVITY },
            nearest_distance(),
            farthest_distance(),
        ),
{
    lemma_sensitivities();
    lemma_closest_within(
        camera.distance,
        amount,
        Single { bits: ZOOM_SENSITIVITY },
        nearest_distance(),
        farthest_distance(),
    );
}

/// Each coordinate of the camera's place is the closest number to a product. The way out from
/// the axis is the closest number to the distance times the pitch's cosine.
pub proof fn law_place_of_camera_is_closest(
    camera: OrbitCamera,
    yaw_sin: Single,
    yaw_cos: Single,
    pitch_sin: Single,
    pitch_cos: Single,
)
    requires
        camera.distance.finite(),
        yaw_sin.finite(),
        yaw_cos.finite(),
        pitch_sin.finite(),
        pitch_cos.finite() && pitch_cos.abs_value() <= pow2(149),
    ensures
        ({
            let at = camera.position(yaw_sin, yaw_cos, pitch_sin, pitch_cos);
            let (d, one) = (camera.distance.value(), pow2(149) as int);
            &&& closest(at.y, d * pitch_sin.value(), one)
            &&& exists|out: Single|
                {
                    &&& #[trigger] closest(out, d * pitch_cos.value(), one)
                    &&& closest(at.x, out.value() * yaw_sin.value(), one)
                    &&& closest(at.z, out.value() * yaw_cos.value(), one)
                }
        }),
{
    let out = camera.distance.product(pitch_cos);
    law_product_with_fraction(camera.distance, pitch_cos);
    lemma_closest_product(camera.distance, pitch_sin);
    lemma_closest_product(camera.distance, pitch_cos);
    lemma_closest_product(out, yaw_sin);
    lemma_closest_product(out, yaw_cos);
}

/// A number is the closest to a part of the speed times a time, where the part is the closest to
/// a share of the speed.
pub open spec fn closest_share(r: Single, speed: Single, share: Single, time: Single) -> bool {
    exists|part: Single|
        {
            &&& #[trigger] closest(part, speed.value() * share.value(), pow2(149) as int)
            &&& closest(r, part.value() * time.value(), pow2(149) as int)
        }
}

proof fn lemma_closest_share(speed: Single, share: Single, time: Single)
    requires
        speed.finite(),
        share.finite(),
        share.abs_value() <= pow2(149),
        time.finite(),
    ensures
        closest_share(speed.product(share).product(time), speed, share, time),
{
    law_product_with_fraction(speed, share);
    lemma_closest_product(speed, share);
    lemma_closest_product(speed.product(share), time);
}

/// The cube's turn is the closest number to its speed times the frame's length, and so is its
/// tilt with the tilt's share of the speed.
pub proof fn law_spin_is_closest(controls: Controls, delta: Single)
    requires
        controls.speed.finite(),
        delta.finite(),
    ensures
        closest(
            controls.turns(delta).0,
            controls.speed.value() * delta.value(),
            pow2(149) as int,
        ),
        closest_share(
            controls.turns(delta).1,
            controls.speed,
            Single { bits: TILT },
            delta,
        ),
{
    lemma_tilt();
    lemma_zero(Single { bits: TILT });
    lemma_closest_product(controls.speed, delta);
    lemma_closest_share(controls.speed, Single { bits: TILT }, delta);
}

/// A count is the whole part of a number, or as near to it as a count can be.
pub open spec fn is_whole_part(count: u32, x: Single) -> bool {
    let one = pow2(149) as int;
    &&& x.value() < one ==> count == 0
    &&& x.value() >= 0x1_0000_0000 * one ==> count == u32::MAX
    &&& one <= x.value() < 0x1_0000_0000 * one ==> count * one <= x.value() < (count + 1) * one
}

/// A count of pixels is the whole part of the closest number to a side times a ratio.
pub open spec fn closest_pixels(count: u32, side: Single, ratio: Single) -> bool {
    exists|length: Single|
        {
            &&& #[trigger] closest(length, side.value() * ratio.value(), pow2(149) as int)
            &&& is_whole_part(count, length)
        }
}

proof fn lemma_closest_pixels(side: Single, ratio: Single)
    requires
        side.finite(),
        ratio.finite(),
    ensures
        closest_pixels(side.product(ratio).whole(), side, ratio),
{
    lemma_closest_product(side, ratio);
    law_whole_part(side.product(ratio));
}

/// Each side of a window that is resized is the whole part of the closest number to its own side
/// of the canvas times the ratio.
pub proof fn law_pixels_are_closest(resolution: WindowResolution, size: CanvasSize)
    requires
        resolution.ratio().finite(),
    ensures
        size.width.finite() ==> closest_pixels(
            resolution.resized(size).physical_width,
            size.width,
            resolution.ratio(),
        ),
        size.height.finite() ==> closest_pixels(
            resolution.resized(size).physical_height,
            size.height,
            resolution.ratio(),
        ),
{
    if size.width.finite() {
        lemma_closest_pixels(size.width, resolution.ratio());
    }
    if size.height.finite() {
        lemma_closest_pixels(size.height, resolution.ratio());
    }
}

/// A click's place along an axis, step by step: one is added to the coordinate, half of that is
/// taken, and that is multiplied by the viewport's side. Each step gives the closest number.
pub open spec fn closest_place(place: Single, c: int, side: int) -> bool {
    let one = pow2(149) as int;
    exists|whole: Single, part: Single|
        {
            &&& #[trigger] closest(whole, c + one, 1)
            &&& #[trigger] closest(part, whole.value() * pow2(148), one)
            &&& closest(place, part.value() * side, one)
        }
}

proof fn lemma_closest_place(side: Single, c: Single)
    requires
        c.finite(),
        side.finite(),
    ensures
        closest_place(placed(side, c), c.value(), side.value()),
{
    let (one, half) = (Single { bits: ONE }, Single { bits: ONE_HALF });
    let (whole, part) = (c.sum(one), c.sum(one).product(half));
    lemma_powers();
    lemma_pow2_pos(148);
    lemma_zero(one);
    assert(2 * one.abs_value() < pow2(253)) by {
        lemma_pow2_strictly_increases(150, 253);
    }
    law_sum_commutes(c, one);
    law_small_term_does_not_overflow(one, c);
    law_product_with_fraction(whole, half);
    lemma_closest_sum(c, one);
    lemma_closest_product(whole, half);
    lemma_closest_product(part, side);
    assert(closest(whole, c.value() + pow2(149), 1));
    assert(closest(part, whole.value() * pow2(148), pow2(149) as int));
}

/// Where a click is in the viewport, to the last bit.
pub proof fn law_place_of_click_is_closest(viewport: Vec2, x: Single, y: Single)
    ensures
        x.finite() && viewport.x.finite() ==> closest_place(
            position_in(viewport, x, y).x,
            x.value(),
            viewport.x.value(),
        ),
        y.finite() && viewport.y.finite() ==> closest_place(
            position_in(viewport, x, y).y,
            -y.value(),
            viewport.y.value(),
        ),
{
    if x.finite() && viewport.x.finite() {
        lemma_closest_place(viewport.x, x);
    }
    if y.finite() && viewport.y.finite() {
        lemma_opposite(y);
        law_sum_commutes(Single { bits: ONE }, y.opposite());
        lemma_closest_place(viewport.y, y.opposite());
    }
}

/// A frame, to the last bit: the window's time is the closest number to that before and the
/// frame's length. Where it is a quarter of a second or more, the rate is the closest number to
/// the frames divided by it, and where it is less it is what the open window has lasted.
pub proof fn law_times_and_rates_are_closest(stats: FrameStats, delta: Single)
    requires
        stats.frames < u64::MAX,
        stats.window_frames < u32::MAX,
        stats.accumulator.finite(),
        delta.finite(),
    ensures
        ({
            let (next, one) = (stats.counted(delta), pow2(149) as int);
            let count = Single::count((stats.window_frames + 1) as u32);
            exists|time: Single|
                {
                    &&& #[trigger] closest(
                        time,
                        stats.accumulator.value() + delta.value(),
                        1,
                    )
                    &&& 4 * time.value() < one ==> {
                        &&& next.accumulator == time
                        &&& next.fps == stats.fps
                        &&& next.window_frames == stats.window_frames + 1
                    }
                    &&& 4 * time.value() >= one ==> {
                        &&& next.accumulator.bits == ZERO
                        &&& next.window_frames == 0
                        &&& time.finite() ==> closest(next.fps, count.value() * one, time.value())
                    }
                }
        }),
{
    let time = stats.accumulator.sum(delta);
    let count = Single::count((stats.window_frames + 1) as u32);
    lemma_window_seconds();
    lemma_pow2_pos(149);
    lemma_closest_sum(stats.accumulator, delta);
    law_count_is_finite((stats.window_frames + 1) as u32);
    if time.finite() && 4 * time.value() >= pow2(149) {
        lemma_closest_quotient(count, time);
    }
    assert(closest(time, stats.accumulator.value() + delta.value(), 1));
}

} // verus!

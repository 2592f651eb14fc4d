//! What becomes of inputs that are infinite or no numbers, and of values beyond the usual limits.
use crate::accuracy::{distance, law_product_is_accurate, law_sum_is_accurate};
use crate::arithmetic::{
    law_count_is_finite, law_finite_number_has_sums, law_product_sign, law_product_with_fraction,
    law_sum_commutes, lemma_infinite, lemma_zero, NAN,
};
use crate::camera::{
    farthest_distance, highest_pitch, lowest_pitch, nearest_distance, OrbitCamera,
    ORBIT_SENSITIVITY, ZOOM_SENSITIVITY,
};
use crate::controls::{Controls, TILT};
use crate::motion::{
    greatest, lemma_finite_size, lemma_greatest, lemma_infinite_sum, lemma_sensitivities,
    lemma_step_of, lemma_stepped, lemma_tilt, size, stepped,
};
use crate::pixels::{law_whole_part, lemma_many_pixels};
use crate::ray::ONE;
use crate::single::{Single, INFINITY, ZERO};
use crate::stats::{
    closes, lemma_rate, lemma_rate_in_values, lemma_window_seconds, FrameStats,
};
use crate::vector::Vec2;
use crate::viewport::{lemma_powers, placed, position_in, ONE_HALF};
use crate::window::{CanvasSize, WindowResolution};
use vstd::arithmetic::power2::{lemma_pow2_pos, pow2};
use vstd::prelude::*;

verus! {

/// What a step leads to where it or the number before it is not finite. `back` tells that the
/// step goes against the input. What is no number stays none, an infinite input leads to an
/// infinity, an infinity is left by no finite input, and two infinities that go against each
/// other have no sum.
pub open spec fn stepped_beyond(before: Single, after: Single, delta: Single, back: bool) -> bool {
    let negative = delta.negative() != back;
    &&& before.nan() || delta.nan() ==> after.nan()
    &&& before.finite() && delta.infinite() ==> after.infinite() && after.negative() == negative
    &&& before.infinite() && delta.finite() ==> after == before
    &&& before.infinite() && delta.infinite() && before.negative() == negative ==> after == before
    &&& before.infinite() && delta.infinite() && before.negative() != negative ==> after.nan()
}

/// A step by a fraction of an input, with or against it.
proof fn lemma_step_beyond(x: Single, d: Single, s: Single)
    requires
        s.finite(),
        0 < s.value() <= pow2(149),
    ensures
        stepped_beyond(x, x.sum(d.product(s)), d, false),
        stepped_beyond(x, x.difference(d.product(s)), d, true),
{
    let step = d.product(s);
    assert((Single { bits: NAN }).nan());
    assert(step.opposite().low_bits() == step.low_bits());
    lemma_zero(s);
    lemma_zero(d);
    if d.finite() {
        law_product_with_fraction(d, s);
    }
}

/// `after` is `before` and the `n`-th part of an input, brought between two bounds. Where the
/// two are finite, the step is right but for rounding.
pub open spec fn brought_within(
    n: int,
    before: Single,
    after: Single,
    delta: Single,
    low: Single,
    high: Single,
) -> bool {
    exists|free: Single|
        {
            &&& #[trigger] stepped_beyond(before, free, delta, false)
            &&& before.finite() && delta.finite() ==> stepped(n, before, free, delta.value())
            &&& after == free.limited(low, high)
        }
}

proof fn lemma_brought_within(
    n: int,
    x: Single,
    d: Single,
    s: Single,
    low: Single,
    high: Single,
)
    requires
        s.finite(),
        0 < s.value() <= pow2(149),
        2 <= n <= 200,
        0x100_0000 * distance(n * s.value(), pow2(149) as int) <= pow2(149),
    ensures
        brought_within(n, x, x.sum(d.product(s)).limited(low, high), d, low, high),
{
    let free = x.sum(d.product(s));
    lemma_step_beyond(x, d, s);
    if x.finite() && d.finite() {
        lemma_step_of(d, s, n);
        lemma_finite_size(d);
        lemma_stepped(x, d.product(s), n, d.value());
    }
    assert(stepped_beyond(x, free, d, false));
}

/// What a drag leads to, whatever the camera and the drag, be they finite or not.
pub proof fn law_any_drag_turns_camera(camera: OrbitCamera, delta_yaw: Single, delta_pitch: Single)
    ensures
        stepped_beyond(camera.yaw, camera.turned(delta_yaw, delta_pitch).yaw, delta_yaw, true),
        brought_within(
            200,
            camera.pitch,
            camera.turned(delta_yaw, delta_pitch).pitch,
            delta_pitch,
            lowest_pitch(),
            highest_pitch(),
        ),
{
    let s = Single { bits: ORBIT_SENSITIVITY };
    lemma_sensitivities();
    lemma_step_beyond(camera.yaw, delta_yaw, s);
    lemma_brought_within(200, camera.pitch, delta_pitch, s, lowest_pitch(), highest_pitch());
}

/// What a scroll leads to, whatever the camera and the scroll, be they finite or not.
pub proof fn law_any_scroll_moves_camera(camera: OrbitCamera, amount: Single)
    ensures
        brought_within(
            100,
            camera.distance,
            camera.moved(amount).distance,
            amount,
            nearest_distance(),
            farthest_distance(),
        ),
{
    lemma_sensitivities();
    lemma_brought_within(
        100,
        camera.distance,
        amount,
        Single { bits: ZOOM_SENSITIVITY },
        nearest_distance(),
        farthest_distance(),
    );
}

/// What a product is where one of its factors is not finite: an infinity of its sign, or none
/// where the other factor is zero or no number.
pub open spec fn multiplied_beyond(r: Single, a: Single, b: Single) -> bool {
    &&& a.nan() || b.nan() ==> r.nan()
    &&& a.infinite() && b.value() == 0 || b.infinite() && a.value() == 0 ==> r.nan()
    &&& a.infinite() && !b.nan() && b.value() != 0 || b.infinite() && !a.nan() && a.value() != 0
        ==> r.infinite() && r.negative() == (a.negative() != b.negative())
}

/// A product with a factor that is not finite.
pub proof fn law_product_beyond_finite_numbers(a: Single, b: Single)
    ensures
        multiplied_beyond(a.product(b), a, b),
{
    assert((Single { bits: NAN }).nan());
    lemma_zero(a);
    lemma_zero(b);
}

/// How the cube turns and tilts where its speed or the frame's length is not finite. A speed of
/// no more than the least number has no tilt.
pub proof fn law_cube_turns_beyond_finite_numbers(controls: Controls, delta: Single)
    ensures
        multiplied_beyond(controls.turns(delta).0, controls.speed, delta),
        controls.speed.nan() || controls.speed.infinite() || size(controls.speed.value()) >= 2
            ==> multiplied_beyond(controls.turns(delta).1, controls.speed, delta),
{
    let (speed, tilt) = (controls.speed, Single { bits: TILT });
    let part = speed.product(tilt);
    lemma_tilt();
    lemma_zero(tilt);
    lemma_zero(speed);
    lemma_zero(part);
    law_product_beyond_finite_numbers(speed, delta);
    law_product_beyond_finite_numbers(part, delta);
    law_product_beyond_finite_numbers(speed, tilt);
    if speed.finite() && size(speed.value()) >= 2 {
        law_product_with_fraction(speed, tilt);
        law_product_is_accurate(speed, tilt);
        law_product_sign(speed, tilt);
        let (v, t, w) = (speed.value(), tilt.value(), pow2(149) as int);
        assert(size(v * t) >= 2 * t) by (nonlinear_arith)
            requires
                t > 0,
                size(v) >= 2,
                size(v) == (if v < 0 { -v } else { v }),
                size(v * t) == (if v * t < 0 { -(v * t) } else { v * t }),
        ;
        assert(part.value() == 0 ==> part.value() * w == 0);
    }
}

proof fn lemma_placed_beyond(side: Single, c: Single)
    ensures
        c.nan() || side.nan() ==> placed(side, c).nan(),
        c.infinite() ==> multiplied_beyond(placed(side, c), c, side),
{
    let (one, half) = (Single { bits: ONE }, Single { bits: ONE_HALF });
    let whole = c.sum(one);
    assert((Single { bits: NAN }).nan());
    lemma_powers();
    lemma_zero(c);
    law_product_beyond_finite_numbers(whole, half);
    law_product_beyond_finite_numbers(whole.product(half), side);
}

/// Where a click is placed that is not finite, or that goes to a viewport that is not.
pub proof fn law_click_beyond_finite_numbers(viewport: Vec2, x: Single, y: Single)
    ensures
        ({
            let at = position_in(viewport, x, y);
            &&& x.nan() || viewport.x.nan() ==> at.x.nan()
            &&& y.nan() || viewport.y.nan() ==> at.y.nan()
            &&& x.infinite() ==> multiplied_beyond(at.x, x, viewport.x)
            &&& y.infinite() ==> multiplied_beyond(at.y, y.opposite(), viewport.y)
        }),
{
    lemma_placed_beyond(viewport.x, x);
    lemma_placed_beyond(viewport.y, y.opposite());
    law_sum_commutes(Single { bits: ONE }, y.opposite());
    assert(y.opposite().low_bits() == y.low_bits());
}

/// What a window is resized to by a side, or a ratio, that is not finite: to no pixels where
/// there is no product or a negative one, and else to the greatest number of them.
pub open spec fn pixels_beyond(count: u32, side: Single, ratio: Single) -> bool {
    let (negative, none) = (side.negative() != ratio.negative(), side.nan() || ratio.nan()
        || side.value() == 0 || ratio.value() == 0);
    side.finite() && ratio.finite() || count == if none || negative {
        0
    } else {
        u32::MAX
    }
}

proof fn lemma_pixels_beyond(side: Single, ratio: Single)
    ensures
        pixels_beyond(side.product(ratio).whole(), side, ratio),
{
    let p = side.product(ratio);
    law_product_beyond_finite_numbers(side, ratio);
    lemma_zero(side);
    lemma_zero(ratio);
    law_whole_part(p);
    lemma_greatest();
    lemma_many_pixels(greatest(), 0, pow2(149) as int);
    lemma_pow2_pos(149);
}

/// What a window is resized to by a canvas that is not finite, or where its ratio is not.
pub proof fn law_canvas_beyond_finite_numbers(resolution: WindowResolution, size: CanvasSize)
    ensures
        pixels_beyond(resolution.resized(size).physical_width, size.width, resolution.ratio()),
        pixels_beyond(resolution.resized(size).physical_height, size.height, resolution.ratio()),
{
    lemma_pixels_beyond(size.width, resolution.ratio());
    lemma_pixels_beyond(size.height, resolution.ratio());
}

/// A frame whose length is any finite number, be it negative, in a window that has lasted any
/// finite time. The times add up, but for rounding, and the window closes from a quarter of a
/// second on, with a rate that times the time is the number of its frames.
pub proof fn law_any_frame_adds_its_time(stats: FrameStats, delta: Single)
    requires
        stats.frames < u64::MAX,
        stats.window_frames < u32::MAX,
        stats.accumulator.finite(),
        delta.finite(),
    ensures
        ({
            let next = stats.counted(delta);
            let total = stats.accumulator.value() + delta.value();
            let (count, rate) = (Single::count((stats.window_frames + 1) as u32), next.fps.value());
            &&& next.frames == stats.frames + 1
            &&& next.window_frames == 0 ==> {
                &&& next.accumulator == (Single { bits: ZERO })
                &&& 0x400_0000 * total >= 0xff_ffff * pow2(149)
                &&& next.fps.finite()
                &&& total < greatest() ==> 0x100_0000 * distance(
                    count.value() * pow2(149),
                    rate * total,
                ) <= 4 * rate * total + 0x100_0000 * total
                &&& total < greatest() ==> rate > 0
            }
            &&& next.window_frames != 0 ==> {
                &&& next.window_frames == stats.window_frames + 1
                &&& next.fps == stats.fps
                &&& !next.accumulator.nan()
                &&& 4 * next.accumulator.value() < pow2(149)
                &&& next.accumulator.finite() ==> 0x100_0000 * distance(
                    total,
                    next.accumulator.value(),
                ) <= next.accumulator.abs_value()
                &&& next.accumulator.infinite() ==> total <= -greatest()
            }
        }),
{
    let time = stats.lasted(delta);
    lemma_window_seconds();
    lemma_zero(time);
    law_finite_number_has_sums(stats.accumulator, delta);
    law_count_is_finite((stats.window_frames + 1) as u32);
    if time.finite() {
        law_sum_is_accurate(stats.accumulator, delta);
        if closes(time) {
            let frames = (stats.window_frames + 1) as u32;
            lemma_rate(frames, time);
            lemma_rate_in_values(frames, time, stats.accumulator.value() + delta.value());
        }
    } else {
        lemma_infinite_sum(stats.accumulator, delta);
        lemma_greatest();
    }
}

/// A frame that has no length, or an infinite one, or that comes after such a frame. Time that
/// is no number, or runs infinitely far back, never closes a window, and time that goes on
/// infinitely closes it with a rate of zero.
pub proof fn law_frame_beyond_finite_numbers(stats: FrameStats, delta: Single)
    requires
        stats.frames < u64::MAX,
        stats.window_frames < u32::MAX,
        !stats.accumulator.finite() || !delta.finite(),
    ensures
        ({
            let next = stats.counted(delta);
            let (time, forwards) = (stats.accumulator, Single { bits: INFINITY });
            let closed = time == forwards && !delta.nan() && delta.value() != -forwards.value()
                || delta == forwards && !time.nan() && time.value() != -forwards.value();
            &&& next.frames == stats.frames + 1
            &&& closed ==> {
                &&& next.accumulator == (Single { bits: ZERO })
                &&& next.window_frames == 0
                &&& next.fps == (Single { bits: ZERO })
            }
            &&& !closed ==> {
                &&& !next.accumulator.finite()
                &&& next.accumulator != forwards
                &&& next.window_frames == stats.window_frames + 1
                &&& next.fps == stats.fps
            }
        }),
{
    lemma_window_seconds();
    lemma_greatest();
    lemma_pow2_pos(149);
    law_count_is_finite((stats.window_frames + 1) as u32);
    assert((Single { bits: NAN }).nan());
    if !stats.accumulator.nan() {
        lemma_infinite(stats.accumulator);
    }
    if !delta.nan() {
        lemma_infinite(delta);
    }
}

} // verus!

//! What a drag, a scroll and a frame do, in plain numbers: by how much the camera turns and
//! moves, where it is then, and by how much the cube turns. All values are multiples of
//! 2^-149, and what rounding may change is stated in units of one part in 2^24.
use crate::accuracy::{distance, law_product_is_accurate, law_sum_is_accurate};
use crate::arithmetic::{
    law_between_finite_is_finite, law_finite_number_has_sums, law_product_with_fraction,
    law_product_with_zero, lemma_infinite, lemma_rounded, lemma_zero,
};
use crate::camera::{
    farthest_distance, highest_pitch, law_camera_limits, lemma_ways_add_up, lowest_pitch,
    nearest_distance, OrbitCamera, ORBIT_SENSITIVITY, ZOOM_SENSITIVITY,
};
use crate::controls::{Controls, TILT};
use crate::rounding::lemma_encoding;
use crate::single::{
    law_magnitude_increases, law_value_of_fields, magnitude_of, Single, INFINITY,
};
use vstd::arithmetic::power2::{
    lemma2_to64, lemma_pow2_adds, lemma_pow2_pos, lemma_pow2_strictly_increases, pow2,
};
use vstd::prelude::*;

verus! {

/// The magnitude of a value.
pub open spec fn size(v: int) -> int {
    if v < 0 {
        -v
    } else {
        v
    }
}

/// The value, or the bound that it passes.
pub open spec fn brought(v: int, low: int, high: int) -> int {
    if v < low {
        low
    } else if v > high {
        high
    } else {
        v
    }
}

/// The greatest finite value.
pub open spec fn greatest() -> int {
    0xff_ffff * (pow2(253) as int)
}

/// `after` is `before` and the `n`-th part of `d`, but for rounding. A value that is beyond the
/// finite ones is an infinity.
pub open spec fn stepped(n: int, before: Single, after: Single, d: int) -> bool {
    if after.finite() {
        0x100_0000 * distance(n * after.value(), n * before.value() + d) <= n * after.abs_value()
            + 3 * size(d) + n * 0x100_0000
    } else {
        &&& !after.nan()
        &&& after.negative() ==> n * before.value() + d <= -(n - 1) * greatest()
        &&& !after.negative() ==> n * before.value() + d >= (n - 1) * greatest()
    }
}

/// A rounded product with a factor that is the `n`-th part of one, but for rounding.
proof fn lemma_part_of(d: int, s: int, p: int, n: int, w: int)
    requires
        w > 0,
        0 < n <= 200,
        0x100_0000 * distance(d * s, p * w) <= size(p) * w + 0x80_0000 * w,
        0x100_0000 * distance(n * s, w) <= w,
    ensures
        0x100_0000 * distance(n * p, d) <= 3 * size(d) + n * 0x100_0000,
{
    let (e, f) = (p * w - d * s, n * s - w);
    assert((n * p - d) * w == n * e + d * f) by (nonlinear_arith)
        requires
            e == p * w - d * s,
            f == n * s - w,
    ;
    let a = size(p) * w + 0x80_0000 * w;
    assert(-(n * a) <= 0x100_0000 * (n * e) <= n * a) by (nonlinear_arith)
        requires
            n > 0,
            -a <= 0x100_0000 * e <= a,
    ;
    let dw = size(d) * w;
    assert(-dw <= 0x100_0000 * (d * f) <= dw) by (nonlinear_arith)
        requires
            dw == size(d) * w,
            size(d) == d || size(d) == -d,
            size(d) >= 0,
            -w <= 0x100_0000 * f <= w,
    ;
    let gap = n * p - d;
    let bound = size(n * p) + n * 0x80_0000 + size(d);
    assert(size(n * p) == n * size(p)) by (nonlinear_arith)
        requires
            n > 0,
            size(p) == (if p < 0 { -p } else { p }),
            size(n * p) == (if n * p < 0 { -(n * p) } else { n * p }),
    ;
    assert(n * a + dw == bound * w) by (nonlinear_arith)
        requires
            a == size(p) * w + 0x80_0000 * w,
            dw == size(d) * w,
            bound == size(n * p) + n * 0x80_0000 + size(d),
            size(n * p) == n * size(p),
    {
        assert(n * (size(p) * w) == size(n * p) * w);
    }
    assert(0x100_0000 * gap <= bound && -(0x100_0000 * gap) <= bound) by (nonlinear_arith)
        requires
            0x100_0000 * (gap * w) <= bound * w,
            -(0x100_0000 * (gap * w)) <= bound * w,
            w > 0,
    ;
}

/// What is added for an input, scaled by the `n`-th part of one.
pub(crate) proof fn lemma_step_of(delta: Single, sensitivity: Single, n: int)
    requires
        delta.finite(),
        sensitivity.finite(),
        0 < sensitivity.value() <= pow2(149),
        0 < n <= 200,
        0x100_0000 * distance(n * sensitivity.value(), pow2(149) as int) <= pow2(149),
    ensures
        delta.product(sensitivity).finite(),
        0x100_0000 * distance(n * delta.product(sensitivity).value(), delta.value()) <= 3 * size(
            delta.value(),
        ) + n * 0x100_0000,
{
    let p = delta.product(sensitivity);
    lemma_pow2_pos(149);
    lemma_zero(sensitivity);
    law_product_with_fraction(delta, sensitivity);
    law_product_is_accurate(delta, sensitivity);
    lemma_zero(p);
    lemma_part_of(delta.value(), sensitivity.value(), p.value(), n, pow2(149) as int);
}

/// The sensitivities are 0.005 and 0.01, but for rounding.
pub(crate) proof fn lemma_sensitivities()
    ensures
        ({
            let w = pow2(149) as int;
            let orbit = Single { bits: ORBIT_SENSITIVITY };
            let zoom = Single { bits: ZOOM_SENSITIVITY };
            &&& orbit.finite()
            &&& zoom.finite()
            &&& 0 < orbit.value() <= w
            &&& 0 < zoom.value() <= w
            &&& 0x100_0000 * distance(200 * orbit.value(), w) <= w
            &&& 0x100_0000 * distance(100 * zoom.value(), w) <= w
            &&& w >= 0x1_0000_0000
        }),
{
    let p = pow2(118) as int;
    lemma2_to64();
    lemma_pow2_pos(118);
    lemma_pow2_adds(118, 1);
    lemma_pow2_adds(118, 31);
    law_value_of_fields(Single { bits: ORBIT_SENSITIVITY }, 119, 0x23_d70a);
    law_value_of_fields(Single { bits: ZOOM_SENSITIVITY }, 120, 0x23_d70a);
    lemma_pow2_adds(117, 1);
    lemma_pow2_pos(117);
    assert(pow2(149) == p * 0x8000_0000);
    assert((Single { bits: ORBIT_SENSITIVITY }).value() == 0xa3_d70a * p);
    assert((Single { bits: ZOOM_SENSITIVITY }).value() == 0xa3_d70a * (p * 2));
}

/// The greatest finite magnitude, and the one that infinity stands for.
pub(crate) proof fn lemma_greatest()
    ensures
        magnitude_of(INFINITY - 1) == greatest(),
        magnitude_of(INFINITY as int) == greatest() + pow2(253),
        greatest() > 0x10_0000 * pow2(149),
        pow2(253) > 0,
{
    lemma_encoding(253, 0xff_ffff);
    lemma_encoding(253, 0x100_0000);
    lemma_pow2_pos(253);
    lemma2_to64();
    lemma_pow2_pos(149);
    lemma_pow2_strictly_increases(149, 253);
    let p = pow2(253) as int;
    assert(0x100_0000 * p == 0xff_ffff * p + p) by (nonlinear_arith);
}

/// A sum that is infinite is one beyond the finite numbers.
pub(crate) proof fn lemma_infinite_sum(a: Single, b: Single)
    requires
        a.finite(),
        b.finite(),
        a.sum(b).infinite(),
    ensures
        a.sum(b).negative() ==> a.value() + b.value() <= -greatest(),
        !a.sum(b).negative() ==> a.value() + b.value() >= greatest(),
{
    let total = a.value() + b.value();
    lemma_greatest();
    if total != 0 {
        let num = if total < 0 { -total } else { total };
        lemma_rounded(total < 0, num, 1);
    }
}

/// Finite values are at most the greatest.
pub(crate) proof fn lemma_finite_size(x: Single)
    requires
        x.finite(),
    ensures
        size(x.value()) == x.abs_value(),
        0 <= x.abs_value() <= greatest(),
{
    lemma_greatest();
    lemma_zero(x);
    if x.low_bits() < INFINITY - 1 {
        law_magnitude_increases(x.low_bits(), INFINITY - 1);
    }
}

/// A number and a step that is the `n`-th part of `d`.
pub(crate) proof fn lemma_stepped(x: Single, step: Single, n: int, d: int)
    requires
        x.finite(),
        step.finite(),
        2 <= n <= 200,
        0x100_0000 * distance(n * step.value(), d) <= 3 * size(d) + n * 0x100_0000,
        size(d) <= greatest(),
    ensures
        stepped(n, x, x.sum(step), d),
{
    let s = x.sum(step);
    let total = x.value() + step.value();
    law_finite_number_has_sums(x, step);
    lemma_greatest();
    lemma_pow2_pos(149);
    assert(n * total == n * x.value() + n * step.value()) by (nonlinear_arith)
        requires
            total == x.value() + step.value(),
    ;
    if s.finite() {
        law_sum_is_accurate(x, step);
        let (v, m) = (s.value(), s.abs_value());
        assert(0x100_0000 * distance(n * v, n * total) <= n * m) by (nonlinear_arith)
            requires
                0x100_0000 * (v - total) <= m,
                0x100_0000 * (total - v) <= m,
                n > 0,
                distance(n * v, n * total) == (if n * v <= n * total {
                    n * total - n * v
                } else {
                    n * v - n * total
                }),
        ;
    } else {
        lemma_infinite_sum(x, step);
        let g = greatest();
        assert(n * g == (n - 1) * g + g && -(n - 1) * g == -((n - 1) * g)) by (nonlinear_arith);
        assert((total >= g ==> n * total >= n * g) && (total <= -g ==> n * total <= -(n * g)))
            by (nonlinear_arith)
            requires
                n > 0,
        ;
        lemma_room(g);
    }
}

/// The greatest value leaves room for what rounding may change of it.
proof fn lemma_room(g: int)
    requires
        g == greatest(),
    ensures
        3 * g + 200 * 0x100_0000 <= 0x100_0000 * g,
{
    lemma_pow2_pos(253);
    lemma2_to64();
    lemma_pow2_adds(221, 32);
    lemma_pow2_pos(221);
    let p = pow2(221) as int;
    assert(g >= 0x1_0000_0000) by (nonlinear_arith)
        requires
            g == 0xff_ffff * (p * 0x1_0000_0000),
            p >= 1,
    ;
}

/// A drag turns the yaw against it: by 0.005 for each unit of the drag, whatever the camera's
/// pitch and distance, and whatever the drag upwards.
pub proof fn law_drag_turns_yaw_against_it(
    camera: OrbitCamera,
    delta_yaw: Single,
    delta_pitch: Single,
)
    requires
        camera.yaw.finite(),
        delta_yaw.finite(),
    ensures
        stepped(
            200,
            camera.yaw,
            camera.turned(delta_yaw, delta_pitch).yaw,
            -delta_yaw.value(),
        ),
{
    let step = delta_yaw.product(Single { bits: ORBIT_SENSITIVITY });
    lemma_sensitivities();
    lemma_step_of(delta_yaw, Single { bits: ORBIT_SENSITIVITY }, 200);
    lemma_finite_size(delta_yaw);
    assert(step.opposite().low_bits() == step.low_bits());
    assert(step.opposite().value() == -step.value());
    lemma_stepped(camera.yaw, step.opposite(), 200, -delta_yaw.value());
}

/// `after` is `before` and the `n`-th part of `d`, brought between two bounds, but for rounding.
/// The `n`-fold bounds lie within `m` times one of zero, and an input of more than four times
/// that leads to a bound.
pub open spec fn stepped_within(
    n: int,
    m: int,
    before: Single,
    after: Single,
    delta: Single,
    low: Single,
    high: Single,
) -> bool {
    let exact = n * before.value() + delta.value();
    let far = 4 * m * pow2(149);
    &&& delta.value() > far ==> after == high
    &&& delta.value() < -far ==> after == low
    &&& -far <= delta.value() <= far ==> 0x100_0000 * distance(
        n * after.value(),
        brought(exact, n * low.value(), n * high.value()),
    ) <= 2 * size(exact) + 4 * size(delta.value()) + (n + 1) * 0x100_0000
}

proof fn lemma_near_step(
    x: Single,
    step: Single,
    n: int,
    m: int,
    d: int,
    low: Single,
    high: Single,
)
    requires
        x.finite(),
        step.finite(),
        2 <= n <= 200,
        0 < m <= 2000,
        high.ge(low),
        0x100_0000 * distance(n * step.value(), d) <= 3 * size(d) + n * 0x100_0000,
        size(n * x.value()) <= m * pow2(149),
        size(d) <= 4 * m * pow2(149),
        pow2(149) >= 0x1_0000_0000,
    ensures
        0x100_0000 * distance(
            n * x.sum(step).limited(low, high).value(),
            brought(n * x.value() + d, n * low.value(), n * high.value()),
        ) <= 2 * size(n * x.value() + d) + 4 * size(d) + (n + 1) * 0x100_0000,
{
    let s = x.sum(step);
    let w = pow2(149) as int;
    let mw = m * w;
    assert(mw <= 2000 * w && 4 * m * w == 4 * mw) by (nonlinear_arith)
        requires
            mw == m * w,
            m <= 2000,
            w > 0,
    ;
    lemma_greatest();
    lemma_room(greatest());
    lemma_stepped(x, step, n, d);
    if !s.finite() {
        let g = greatest();
        assert((n - 1) * g >= g && -(n - 1) * g == -((n - 1) * g)) by (nonlinear_arith)
            requires
                n >= 2,
                g > 0,
        ;
        assert(false);
    }
    let (v, a, b) = (s.value(), low.value(), high.value());
    let r = s.limited(low, high).value();
    lemma_zero(s);
    assert(s.abs_value() == size(v));
    assert(n * size(v) == size(n * v)) by (nonlinear_arith)
        requires
            n > 0,
            size(v) == (if v < 0 { -v } else { v }),
            size(n * v) == (if n * v < 0 { -(n * v) } else { n * v }),
    ;
    assert(n * r == brought(n * v, n * a, n * b)) by (nonlinear_arith)
        requires
            n > 0,
            a <= b,
            r == (if v < a { a } else if b < v { b } else { v }),
            brought(n * v, n * a, n * b) == (if n * v < n * a {
                n * a
            } else if n * v > n * b {
                n * b
            } else {
                n * v
            }),
    ;
    assert(n * a <= n * b) by (nonlinear_arith)
        requires
            n > 0,
            a <= b,
    ;
}

proof fn lemma_far_step(
    x: Single,
    step: Single,
    n: int,
    m: int,
    d: int,
    low: Single,
    high: Single,
)
    requires
        x.finite(),
        step.finite(),
        2 <= n <= 200,
        0 < m <= 2000,
        high.ge(low),
        0x100_0000 * distance(n * step.value(), d) <= 3 * size(d) + n * 0x100_0000,
        size(n * x.value()) <= m * pow2(149),
        size(n * low.value()) <= m * pow2(149),
        size(n * high.value()) <= m * pow2(149),
        size(d) <= greatest(),
        pow2(149) >= 0x1_0000_0000,
    ensures
        d > 4 * m * pow2(149) ==> x.sum(step).limited(low, high) == high,
        d < -(4 * m * pow2(149)) ==> x.sum(step).limited(low, high) == low,
{
    let s = x.sum(step);
    let w = pow2(149) as int;
    let mw = m * w;
    assert(mw >= w && 4 * m * w == 4 * mw) by (nonlinear_arith)
        requires
            mw == m * w,
            m >= 1,
            w > 0,
    ;
    law_finite_number_has_sums(x, step);
    lemma_stepped(x, step, n, d);
    let (v, a, b, t) = (s.value(), low.value(), high.value(), x.value() + step.value());
    lemma_zero(s);
    lemma_greatest();
    assert(n * t == n * x.value() + n * step.value()) by (nonlinear_arith)
        requires
            t == x.value() + step.value(),
    ;
    if s.finite() {
        assert(n * size(v) == size(n * v)) by (nonlinear_arith)
            requires
                n > 0,
                size(v) == (if v < 0 { -v } else { v }),
                size(n * v) == (if n * v < 0 { -(n * v) } else { n * v }),
        ;
        assert((n * v > n * b ==> v > b) && (n * v < n * a ==> v < a)) by (nonlinear_arith)
            requires
                n > 0,
        ;
    } else {
        lemma_infinite_sum(x, step);
        assert((t >= greatest() ==> n * t > 0) && (t <= -greatest() ==> n * t < 0))
            by (nonlinear_arith)
            requires
                n > 0,
                greatest() > 0,
        ;
        lemma_bound_is_finite(low, n, m);
        lemma_bound_is_finite(high, n, m);
        lemma_infinite(s);
        lemma_infinite(low);
        lemma_infinite(high);
    }
}

/// A bound whose `n`-fold is within `m` times one of zero is no infinity.
proof fn lemma_bound_is_finite(x: Single, n: int, m: int)
    requires
        !x.nan(),
        2 <= n,
        0 < m <= 2000,
        size(n * x.value()) <= m * pow2(149),
    ensures
        x.finite(),
{
    lemma_greatest();
    lemma_zero(x);
    lemma_pow2_pos(149);
    let (w, v) = (pow2(149) as int, x.value());
    assert(m * w <= 2000 * w) by (nonlinear_arith)
        requires
            m <= 2000,
            w > 0,
    ;
    assert(size(v) <= size(n * v)) by (nonlinear_arith)
        requires
            n >= 2,
            size(v) == (if v < 0 { -v } else { v }),
            size(n * v) == (if n * v < 0 { -(n * v) } else { n * v }),
    ;
}

proof fn lemma_stepped_within(
    x: Single,
    delta: Single,
    sensitivity: Single,
    n: int,
    m: int,
    low: Single,
    high: Single,
)
    requires
        x.finite(),
        !delta.nan(),
        sensitivity.finite(),
        0 < sensitivity.value() <= pow2(149),
        2 <= n <= 200,
        0 < m <= 2000,
        high.ge(low),
        0x100_0000 * distance(n * sensitivity.value(), pow2(149) as int) <= pow2(149),
        size(n * x.value()) <= m * pow2(149),
        size(n * low.value()) <= m * pow2(149),
        size(n * high.value()) <= m * pow2(149),
        pow2(149) >= 0x1_0000_0000,
    ensures
        stepped_within(
            n,
            m,
            x,
            x.sum(delta.product(sensitivity)).limited(low, high),
            delta,
            low,
            high,
        ),
{
    let step = delta.product(sensitivity);
    let far = 4 * m * pow2(149);
    if delta.finite() {
        lemma_step_of(delta, sensitivity, n);
        lemma_finite_size(delta);
        if size(delta.value()) <= far {
            lemma_near_step(x, step, n, m, delta.value(), low, high);
        } else {
            lemma_far_step(x, step, n, m, delta.value(), low, high);
        }
    } else {
        let w = pow2(149) as int;
        assert(4 * m * w <= 8000 * w && 0 <= 4 * m * w) by (nonlinear_arith)
            requires
                0 < m <= 2000,
                w > 0,
        ;
        lemma_greatest();
        lemma_zero(sensitivity);
        lemma_zero(delta);
        lemma_bound_is_finite(low, n, m);
        lemma_bound_is_finite(high, n, m);
        assert(delta.infinite());
        assert(step.infinite() && step.negative() == delta.negative());
        let s = x.sum(step);
        assert(s == step);
        lemma_infinite(s);
        lemma_infinite(low);
        lemma_infinite(high);
    }
}

/// A drag turns the pitch with it: by 0.005 for each unit of the drag, up to 1.5 and down to
/// -1.5, whatever the camera's yaw and distance, and whatever the drag sideways.
pub proof fn law_drag_turns_pitch_with_it(
    camera: OrbitCamera,
    delta_yaw: Single,
    delta_pitch: Single,
)
    requires
        camera.wf(),
        !camera.pitch.nan(),
        !delta_pitch.nan(),
    ensures
        2 * highest_pitch().value() == 3 * pow2(149),
        2 * lowest_pitch().value() == -3 * pow2(149),
        stepped_within(
            200,
            300,
            camera.pitch,
            camera.turned(delta_yaw, delta_pitch).pitch,
            delta_pitch,
            lowest_pitch(),
            highest_pitch(),
        ),
{
    lemma_sensitivities();
    law_camera_limits();
    lemma2_to64();
    lemma_pow2_adds(148, 1);
    lemma_pow2_pos(148);
    law_between_finite_is_finite(lowest_pitch(), camera.pitch, highest_pitch());
    lemma_stepped_within(
        camera.pitch,
        delta_pitch,
        Single { bits: ORBIT_SENSITIVITY },
        200,
        300,
        lowest_pitch(),
        highest_pitch(),
    );
}

/// A scroll moves the camera with it: by 0.01 for each unit, out to 20 and in to 2, whatever the
/// camera's yaw and pitch.
pub proof fn law_scroll_moves_camera_with_it(camera: OrbitCamera, amount: Single)
    requires
        camera.wf(),
        !camera.distance.nan(),
        !amount.nan(),
    ensures
        nearest_distance().value() == 2 * pow2(149),
        farthest_distance().value() == 20 * pow2(149),
        stepped_within(
            100,
            2000,
            camera.distance,
            camera.moved(amount).distance,
            amount,
            nearest_distance(),
            farthest_distance(),
        ),
{
    lemma_sensitivities();
    law_camera_limits();
    law_between_finite_is_finite(nearest_distance(), camera.distance, farthest_distance());
    lemma_stepped_within(
        camera.distance,
        amount,
        Single { bits: ZOOM_SENSITIVITY },
        100,
        2000,
        nearest_distance(),
        farthest_distance(),
    );
}

/// A drag does not change the distance, and a scroll changes nothing but the distance. The yaw
/// and the pitch that a drag leads to depend each on what it was and on its own part of the
/// drag alone, and the distance that a scroll leads to on what it was and on the scroll.
pub proof fn law_coordinates_are_independent(
    camera: OrbitCamera,
    other: OrbitCamera,
    yaw: Single,
    pitch: Single,
    other_yaw: Single,
    other_pitch: Single,
    amount: Single,
)
    ensures
        camera.turned(yaw, pitch).distance == camera.distance,
        camera.moved(amount).yaw == camera.yaw,
        camera.moved(amount).pitch == camera.pitch,
        camera.yaw == other.yaw ==> camera.turned(yaw, pitch).yaw == other.turned(
            yaw,
            other_pitch,
        ).yaw,
        camera.pitch == other.pitch ==> camera.turned(yaw, pitch).pitch == other.turned(
            other_yaw,
            pitch,
        ).pitch,
        camera.distance == other.distance ==> camera.moved(amount).distance == other.moved(
            amount,
        ).distance,
{
}

/// A drag and a scroll lead to the same camera, whichever comes first.
pub proof fn law_drag_and_scroll_commute(
    camera: OrbitCamera,
    delta_yaw: Single,
    delta_pitch: Single,
    amount: Single,
)
    ensures
        camera.turned(delta_yaw, delta_pitch).moved(amount) == camera.moved(amount).turned(
            delta_yaw,
            delta_pitch,
        ),
{
}

/// A number is a product of two values, but for rounding. A product that is beyond the finite
/// numbers is an infinity of its sign.
pub open spec fn multiplied(r: Single, exact: int) -> bool {
    let one = pow2(149) as int;
    if r.finite() {
        0x100_0000 * distance(exact, r.value() * one) <= r.abs_value() * one + 0x80_0000 * one
    } else {
        &&& !r.nan()
        &&& r.negative() ==> exact <= -(greatest() * one)
        &&& !r.negative() ==> exact >= greatest() * one
    }
}

pub(crate) proof fn lemma_multiplied(a: Single, b: Single)
    requires
        a.finite(),
        b.finite(),
    ensures
        multiplied(a.product(b), a.value() * b.value()),
{
    let r = a.product(b);
    let (x, y, w) = (a.abs_value(), b.abs_value(), pow2(149) as int);
    lemma_pow2_pos(149);
    lemma_zero(a);
    lemma_zero(b);
    assert(x * y >= 0) by (nonlinear_arith)
        requires
            x >= 0,
            y >= 0,
    ;
    lemma_rounded(a.negative() != b.negative(), x * y, w);
    if r.finite() {
        law_product_is_accurate(a, b);
    } else {
        lemma_greatest();
        let (g, p) = (greatest(), pow2(253) as int);
        assert(w * (g + (g + p)) >= 2 * (g * w)) by (nonlinear_arith)
            requires
                w > 0,
                p > 0,
        ;
        assert((-x) * y == -(x * y) && x * (-y) == -(x * y) && (-x) * (-y) == x * y)
            by (nonlinear_arith);
    }
}

/// In a frame the cube turns by its speed times the length of the frame, however long the frame
/// is and however fast the cube.
pub proof fn law_cube_turns_by_speed_and_time(controls: Controls, delta: Single)
    requires
        controls.speed.finite(),
        delta.finite(),
    ensures
        multiplied(controls.turns(delta).0, controls.speed.value() * delta.value()),
{
    lemma_multiplied(controls.speed, delta);
}

/// The share of the tilt is 0.4, but for rounding.
pub(crate) proof fn lemma_tilt()
    ensures
        ({
            let (t, w) = ((Single { bits: TILT }).value(), pow2(149) as int);
            &&& (Single { bits: TILT }).finite()
            &&& 0 < t <= w
            &&& 0x100_0000 * distance(5 * t, 2 * w) <= w
            &&& w >= 0x1_0000_0000
        }),
{
    let p = pow2(124) as int;
    lemma2_to64();
    lemma_pow2_pos(124);
    lemma_pow2_adds(124, 25);
    lemma_pow2_pos(117);
    lemma_pow2_adds(117, 7);
    law_value_of_fields(Single { bits: TILT }, 125, 0x4c_cccd);
    assert(pow2(149) == p * 0x200_0000);
    assert((Single { bits: TILT }).value() == 0xcc_cccd * p);
}

/// Two fifths of a value, rounded: `k` is `s` times a share `t` of 0.4.
proof fn lemma_two_fifths(s: int, t: int, k: int, w: int)
    requires
        w > 0,
        size(k) <= size(s),
        0x100_0000 * distance(s * t, k * w) <= size(k) * w + 0x80_0000 * w,
        0x100_0000 * distance(5 * t, 2 * w) <= w,
    ensures
        0x100_0000 * distance(5 * k, 2 * s) <= 6 * size(s) + 3 * 0x100_0000,
{
    let (e, f, n) = (k * w - s * t, 5 * t - 2 * w, size(s));
    assert((5 * k - 2 * s) * w == 5 * e + s * f) by (nonlinear_arith)
        requires
            e == k * w - s * t,
            f == 5 * t - 2 * w,
    ;
    assert(size(k) * w <= n * w) by (nonlinear_arith)
        requires
            size(k) <= n,
            w > 0,
    ;
    let nw = n * w;
    assert(-nw <= 0x100_0000 * (s * f) <= nw) by (nonlinear_arith)
        requires
            nw == n * w,
            n == s || n == -s,
            n >= 0,
            -w <= 0x100_0000 * f <= w,
    ;
    let gap = 5 * k - 2 * s;
    assert(0x100_0000 * gap <= 6 * n + 3 * 0x100_0000 && -(0x100_0000 * gap) <= 6 * n + 3
        * 0x100_0000) by (nonlinear_arith)
        requires
            0x100_0000 * (gap * w) <= 6 * (n * w) + 0x300_0000 * w,
            -(0x100_0000 * (gap * w)) <= 6 * (n * w) + 0x300_0000 * w,
            w > 0,
    ;
}

/// A number is two fifths of the product of a speed and a time, but for rounding. One that is
/// beyond the finite numbers is an infinity.
pub open spec fn tilted(r: Single, speed: int, time: int) -> bool {
    let one = pow2(149) as int;
    if r.finite() {
        0x100_0000 * distance(5 * (r.value() * one), 2 * (speed * time)) <= 5 * (r.abs_value()
            * one) + 6 * size(speed * time) + 0x300_0000 * (size(time) + one)
    } else {
        !r.nan() && size(speed * time) >= 2 * (greatest() * one)
    }
}

proof fn lemma_tilted(s: int, k: int, d: int, r: Single, w: int)
    requires
        w == pow2(149),
        w >= 0x1_0000_0000,
        size(d) <= greatest(),
        0x100_0000 * distance(5 * k, 2 * s) <= 6 * size(s) + 3 * 0x100_0000,
        multiplied(r, k * d),
    ensures
        tilted(r, s, d),
{
    let (gap, n, m) = (5 * k - 2 * s, size(s), size(d));
    assert(5 * (k * d) - 2 * (s * d) == gap * d) by (nonlinear_arith)
        requires
            gap == 5 * k - 2 * s,
    ;
    let nm = n * m;
    assert(nm == size(s * d)) by (nonlinear_arith)
        requires
            nm == n * m,
            n == (if s < 0 { -s } else { s }),
            m == (if d < 0 { -d } else { d }),
            size(s * d) == (if s * d < 0 { -(s * d) } else { s * d }),
    ;
    assert(-(6 * nm + 0x300_0000 * m) <= 0x100_0000 * (gap * d) <= 6 * nm + 0x300_0000 * m)
        by (nonlinear_arith)
        requires
            nm == n * m,
            m == d || m == -d,
            m >= 0,
            -(6 * n + 3 * 0x100_0000) <= 0x100_0000 * gap <= 6 * n + 3 * 0x100_0000,
    ;
    lemma_zero(r);
    lemma_greatest();
    if r.finite() {
        assert(0x300_0000 * (m + w) == 0x300_0000 * m + 0x300_0000 * w);
    } else {
        let g = greatest();
        assert(12 * g <= g * w) by (nonlinear_arith)
            requires
                w >= 12,
                g > 0,
        ;
    }
}

/// In a frame the cube tilts by two fifths of its speed times the length of the frame.
pub proof fn law_cube_tilts_by_speed_and_time(controls: Controls, delta: Single)
    requires
        controls.speed.finite(),
        delta.finite(),
    ensures
        tilted(controls.turns(delta).1, controls.speed.value(), delta.value()),
{
    let (speed, tilt) = (controls.speed, Single { bits: TILT });
    let share = speed.product(tilt);
    lemma_tilt();
    lemma_pow2_pos(149);
    lemma_zero(tilt);
    law_product_with_fraction(speed, tilt);
    law_product_is_accurate(speed, tilt);
    lemma_finite_size(speed);
    lemma_finite_size(share);
    lemma_finite_size(delta);
    lemma_two_fifths(speed.value(), tilt.value(), share.value(), pow2(149) as int);
    lemma_multiplied(share, delta);
    lemma_tilted(
        speed.value(),
        share.value(),
        delta.value(),
        share.product(delta),
        pow2(149) as int,
    );
}

/// The cube's colour does not change how it spins.
pub proof fn law_colour_does_not_spin(controls: Controls, other: Controls, delta: Single)
    requires
        controls.speed == other.speed,
    ensures
        controls.turns(delta) == other.turns(delta),
{
}

/// In two frames in turn the cube turns as in one frame of both lengths, but for rounding.
pub proof fn law_two_frames_turn_as_one(controls: Controls, a: Single, b: Single)
    requires
        controls.speed.finite(),
        a.finite(),
        b.finite(),
        a.sum(b).finite(),
        controls.turns(a).0.finite(),
        controls.turns(b).0.finite(),
        controls.turns(a.sum(b)).0.finite(),
    ensures
        0x100_0000 * distance(
            controls.turns(a).0.value() + controls.turns(b).0.value(),
            controls.turns(a.sum(b)).0.value(),
        ) <= controls.turns(a).0.abs_value() + controls.turns(b).0.abs_value() + 3
            * controls.turns(a.sum(b)).0.abs_value() + 0x200_0000,
{
    let (s, ab, w) = (controls.speed.value(), a.sum(b), pow2(149) as int);
    let (x, y, z) = (controls.turns(a).0, controls.turns(b).0, controls.turns(ab).0);
    lemma_pow2_pos(149);
    law_sum_is_accurate(a, b);
    law_cube_turns_by_speed_and_time(controls, a);
    law_cube_turns_by_speed_and_time(controls, b);
    law_cube_turns_by_speed_and_time(controls, ab);
    lemma_finite_size(ab);
    lemma_finite_size(x);
    lemma_finite_size(y);
    lemma_finite_size(z);
    let (p, q, r) = (x.value(), y.value(), z.value());
    let (d, e, f) = (a.value(), b.value(), ab.value());
    assert(s * d == d * s && s * e == e * s && s * f == f * s) by (nonlinear_arith);
    if s > 0 {
        lemma_ways_add_up(d, e, f, s, p, q, r, w);
    } else if s < 0 {
        assert(d * (-s) == -(d * s) && e * (-s) == -(e * s) && f * (-s) == -(f * s))
            by (nonlinear_arith);
        assert((-p) * w == -(p * w) && (-q) * w == -(q * w) && (-r) * w == -(r * w))
            by (nonlinear_arith);
        lemma_ways_add_up(d, e, f, -s, -p, -q, -r, w);
    } else {
        law_product_with_zero(controls.speed, a);
        law_product_with_zero(controls.speed, b);
        law_product_with_zero(controls.speed, ab);
        lemma_zero(x);
        lemma_zero(y);
        lemma_zero(z);
    }
}

/// In two frames in turn the cube tilts as in one frame of both lengths, but for rounding.
pub proof fn law_two_frames_tilt_as_one(controls: Controls, a: Single, b: Single)
    requires
        controls.speed.finite(),
        a.finite(),
        b.finite(),
        a.sum(b).finite(),
        controls.turns(a).1.finite(),
        controls.turns(b).1.finite(),
        controls.turns(a.sum(b)).1.finite(),
    ensures
        0x100_0000 * distance(
            controls.turns(a).1.value() + controls.turns(b).1.value(),
            controls.turns(a.sum(b)).1.value(),
        ) <= controls.turns(a).1.abs_value() + controls.turns(b).1.abs_value() + 3
            * controls.turns(a.sum(b)).1.abs_value() + 0x200_0000,
{
    let tilt = Single { bits: TILT };
    lemma_tilt();
    lemma_zero(tilt);
    law_product_with_fraction(controls.speed, tilt);
    let slower = Controls { speed: controls.speed.product(tilt), ..controls };
    law_two_frames_turn_as_one(slower, a, b);
}

/// A number is a product of three values, of which the last two are at most one, but for
/// rounding.
pub open spec fn multiplied_twice(r: Single, a: int, b: int, c: int) -> bool {
    let one = pow2(149) as int;
    &&& r.finite()
    &&& 0x100_0000 * distance(r.value() * one * one, a * b * c) <= 3 * r.abs_value() * one * one
        + 0x200_0000 * one * one
}

/// Two roundings in turn: `h` is `a` times `b`, and `x` is `h` times `c`.
proof fn lemma_twice(ab: int, h: int, c: int, x: int, w: int)
    requires
        w >= 0x100_0000,
        size(c) <= w,
        0x100_0000 * distance(ab, h * w) <= size(h) * w + 0x80_0000 * w,
        0x100_0000 * distance(h * c, x * w) <= size(x) * w + 0x80_0000 * w,
    ensures
        0x100_0000 * distance(x * w * w, ab * c) <= 3 * size(x) * w * w + 0x200_0000 * w * w,
{
    let (e, f, m) = (x * w - h * c, h * w - ab, size(x));
    assert(x * w * w - ab * c == e * w + f * c) by (nonlinear_arith)
        requires
            e == x * w - h * c,
            f == h * w - ab,
    ;
    let (mw, unit) = (m * w, w * w);
    let mu = mw * w;
    assert(3 * m * w * w == 3 * mu && 0x200_0000 * w * w == 0x200_0000 * unit)
        by (nonlinear_arith)
        requires
            mw == m * w,
            mu == mw * w,
            unit == w * w,
    ;
    let bound = mw + 0x80_0000 * w;
    assert(bound * w == mu + 0x80_0000 * unit) by (nonlinear_arith)
        requires
            bound == mw + 0x80_0000 * w,
            mu == mw * w,
            unit == w * w,
    ;
    assert(-(bound * w) <= 0x100_0000 * (e * w) <= bound * w) by (nonlinear_arith)
        requires
            -bound <= 0x100_0000 * e <= bound,
            w > 0,
    ;
    // What is left of the first rounding after the second factor.
    let (hw, k) = (size(h) * w, size(c));
    let first = hw + 0x80_0000 * w;
    assert(-(first * k) <= 0x100_0000 * (f * c) <= first * k) by (nonlinear_arith)
        requires
            -first <= 0x100_0000 * f <= first,
            k == c || k == -c,
            k >= 0,
    ;
    let hc = size(h * c);
    assert(size(h) * k == hc) by (nonlinear_arith)
        requires
            k == (if c < 0 { -c } else { c }),
            size(h) == (if h < 0 { -h } else { h }),
            hc == (if h * c < 0 { -(h * c) } else { h * c }),
    ;
    assert(first * k <= hc * w + 0x80_0000 * unit) by (nonlinear_arith)
        requires
            first == hw + 0x80_0000 * w,
            hw == size(h) * w,
            size(h) * k == hc,
            0 <= k <= w,
            unit == w * w,
            w > 0,
    {
        assert(hw * k == hc * w);
        assert(0x80_0000 * w * k <= 0x80_0000 * unit);
    }
    assert(size(x * w) == mw) by (nonlinear_arith)
        requires
            mw == m * w,
            m == (if x < 0 { -x } else { x }),
            size(x * w) == (if x * w < 0 { -(x * w) } else { x * w }),
            w > 0,
    ;
    assert(0x100_0000 * hc <= 0x100_0001 * mw + 0x80_0000 * w);
    assert(0x100_0000 * (hc * w) <= 0x100_0001 * mu + 0x80_0000 * unit) by (nonlinear_arith)
        requires
            0x100_0000 * hc <= 0x100_0001 * mw + 0x80_0000 * w,
            mu == mw * w,
            unit == w * w,
            w > 0,
    ;
    assert(mu >= 0 && unit >= 0) by (nonlinear_arith)
        requires
            mu == mw * w,
            mw == m * w,
            m >= 0,
            w > 0,
            unit == w * w,
    ;
    assert(0x100_0000 * (e * w) <= mu + 0x80_0000 * unit);
    assert(0x100_0000 * (f * c) <= hc * w + 0x80_0000 * unit);
    assert(-(mu + 0x80_0000 * unit) <= 0x100_0000 * (e * w));
    assert(-(hc * w + 0x80_0000 * unit) <= 0x100_0000 * (f * c));
    lemma_two_errors(e * w, f * c, hc * w, mu, unit);
}

/// How the errors of two roundings add up.
proof fn lemma_two_errors(e: int, f: int, h: int, mu: int, unit: int)
    requires
        mu >= 0,
        unit >= 0,
        -(mu + 0x80_0000 * unit) <= 0x100_0000 * e <= mu + 0x80_0000 * unit,
        -(h + 0x80_0000 * unit) <= 0x100_0000 * f <= h + 0x80_0000 * unit,
        0x100_0000 * h <= 0x100_0001 * mu + 0x80_0000 * unit,
    ensures
        -(3 * mu + 0x200_0000 * unit) <= 0x100_0000 * (e + f) <= 3 * mu + 0x200_0000
            * unit,
{
}

/// Where the camera is: the height is the distance times the pitch's sine, and the way out is
/// the distance times the pitch's cosine, split by the yaw's sine along the first axis and by
/// its cosine along the third.
pub proof fn law_camera_is_placed_by_its_angles(
    camera: OrbitCamera,
    yaw_sin: Single,
    yaw_cos: Single,
    pitch_sin: Single,
    pitch_cos: Single,
)
    requires
        camera.distance.finite(),
        yaw_sin.finite() && yaw_sin.abs_value() <= pow2(149),
        yaw_cos.finite() && yaw_cos.abs_value() <= pow2(149),
        pitch_sin.finite() && pitch_sin.abs_value() <= pow2(149),
        pitch_cos.finite() && pitch_cos.abs_value() <= pow2(149),
    ensures
        ({
            let at = camera.position(yaw_sin, yaw_cos, pitch_sin, pitch_cos);
            let d = camera.distance.value();
            &&& at.y.finite()
            &&& multiplied(at.y, d * pitch_sin.value())
            &&& multiplied_twice(at.x, d, pitch_cos.value(), yaw_sin.value())
            &&& multiplied_twice(at.z, d, pitch_cos.value(), yaw_cos.value())
        }),
{
    let h = camera.distance.product(pitch_cos);
    let (x, z) = (h.product(yaw_sin), h.product(yaw_cos));
    lemma_tilt();
    lemma_pow2_pos(149);
    law_product_with_fraction(camera.distance, pitch_sin);
    law_product_with_fraction(camera.distance, pitch_cos);
    law_product_with_fraction(h, yaw_sin);
    law_product_with_fraction(h, yaw_cos);
    lemma_multiplied(camera.distance, pitch_sin);
    lemma_multiplied(camera.distance, pitch_cos);
    lemma_multiplied(h, yaw_sin);
    lemma_multiplied(h, yaw_cos);
    lemma_finite_size(h);
    lemma_finite_size(x);
    lemma_finite_size(z);
    lemma_finite_size(yaw_sin);
    lemma_finite_size(yaw_cos);
    let (ab, w) = (camera.distance.value() * pitch_cos.value(), pow2(149) as int);
    lemma_twice(ab, h.value(), yaw_sin.value(), x.value(), w);
    lemma_twice(ab, h.value(), yaw_cos.value(), z.value(), w);
}

} // verus!

//! Where the camera is on its orbit: at its distance from the cube's centre, and off the axis
//! about which it turns. Sines and cosines come from elsewhere; all that is used of them is
//! that they lie on the unit circle, but for rounding.
use crate::accuracy::{distance, law_product_is_accurate};
use crate::arithmetic::{law_between_finite_is_finite, law_product_with_fraction, lemma_zero};
use crate::camera::{farthest_distance, law_camera_limits, nearest_distance, OrbitCamera};
use crate::single::Single;
use crate::vector::Vec3;
use vstd::arithmetic::power2::{lemma2_to64, lemma_pow2_adds, lemma_pow2_pos, pow2};
use vstd::prelude::*;

verus! {

/// Two numbers are the sine and the cosine of an angle, but for rounding: neither is beyond
/// one, and the sum of their squares is off one by at most one part in 2^20.
pub open spec fn on_unit_circle(sin: Single, cos: Single) -> bool {
    let one = pow2(149) as int;
    &&& sin.finite() && sin.abs_value() <= one
    &&& cos.finite() && cos.abs_value() <= one
    &&& 0x10_0000 * distance(sin.value() * sin.value() + cos.value() * cos.value(), one * one)
        <= one * one
}

/// The square of the distance from the centre, as a multiple of 2^-298.
pub open spec fn square_length(v: Vec3) -> int {
    v.x.value() * v.x.value() + v.y.value() * v.y.value() + v.z.value() * v.z.value()
}

/// The square of the distance from the second axis, as a multiple of 2^-298.
pub open spec fn square_off_axis(v: Vec3) -> int {
    v.x.value() * v.x.value() + v.z.value() * v.z.value()
}

/// The square of a rounded product, for a result of up to `d`: `p` is the exact product and `u`
/// the rounded one, in units of one part in `w * w`, and `w` is what a unit is worth.
proof fn lemma_square_of_rounded(p: int, u: int, d: int, w: int)
    requires
        w >= 1,
        d >= 0x180_0000,
        -(d * w) <= u <= d * w,
        0x100_0000 * distance(p, u) <= d * w + 0x80_0000 * w,
    ensures
        0x100_0000 * distance(p * p, u * u) <= 4 * (d * w) * (d * w),
{
    let (e, m) = (distance(p, u), d * w);
    assert(0x180_0000 * w <= m) by (nonlinear_arith)
        requires
            m == d * w,
            d >= 0x180_0000,
            w >= 1,
    ;
    assert(0 <= e <= m);
    let total = if p + u < 0 { -(p + u) } else { p + u };
    assert(0 <= total <= 3 * m);
    assert(distance(p * p, u * u) == e * total) by (nonlinear_arith)
        requires
            e == (if p <= u { u - p } else { p - u }),
            total == (if p + u < 0 { -(p + u) } else { p + u }),
            distance(p * p, u * u) == (if p * p <= u * u {
                u * u - p * p
            } else {
                p * p - u * u
            }),
    ;
    assert(0x100_0000 * (e * total) <= 4 * m * m) by (nonlinear_arith)
        requires
            0x100_0000 * e <= m + 0x80_0000 * w,
            0x180_0000 * w <= m,
            0 <= e,
            0 <= total <= 3 * m,
            m >= 0,
    {
        assert(0x100_0000 * e * total <= (m + 0x80_0000 * w) * (3 * m));
        assert(0x180_0000 * w * m <= m * m);
    }
}

/// The square of a product of a number and one of up to one, beside a larger number `d`.
proof fn lemma_square_of_product(a: Single, b: Single, d: int)
    requires
        a.finite(),
        b.finite(),
        b.abs_value() <= pow2(149),
        a.abs_value() <= d,
        d >= 0x180_0000,
    ensures
        ({
            let (r, w) = (a.product(b), pow2(149) as int);
            let (exact, found) = (a.value() * b.value(), r.value() * w);
            &&& r.finite()
            &&& r.abs_value() <= a.abs_value()
            &&& 0x100_0000 * distance(exact * exact, found * found) <= 4 * (d * w) * (d * w)
        }),
{
    let (r, w) = (a.product(b), pow2(149) as int);
    lemma_pow2_pos(149);
    law_product_with_fraction(a, b);
    law_product_is_accurate(a, b);
    lemma_zero(r);
    let m = r.abs_value();
    assert(m * w <= d * w && (-m) * w == -(m * w) && m * w >= 0) by (nonlinear_arith)
        requires
            0 <= m <= d,
            w > 0,
    ;
    lemma_square_of_rounded(a.value() * b.value(), r.value() * w, d, w);
}

/// On a circle, the squares of two products with its radius add up to the square of the radius,
/// but for rounding.
proof fn lemma_circle(a: int, sin: int, cos: int, w: int)
    requires
        0x10_0000 * distance(sin * sin + cos * cos, w * w) <= w * w,
    ensures
        0x10_0000 * distance(
            (a * sin) * (a * sin) + (a * cos) * (a * cos),
            (a * w) * (a * w),
        ) <= (a * w) * (a * w),
{
    let (s, k, q) = (sin * sin + cos * cos, w * w, a * a);
    assert(q >= 0) by (nonlinear_arith)
        requires
            q == a * a,
    ;
    assert((a * sin) * (a * sin) + (a * cos) * (a * cos) == q * s && (a * w) * (a * w) == q * k)
        by (nonlinear_arith)
        requires
            s == sin * sin + cos * cos,
            k == w * w,
            q == a * a,
    ;
    let gap = distance(s, k);
    assert(distance(q * s, q * k) == q * gap) by (nonlinear_arith)
        requires
            q >= 0,
            gap == (if s <= k { k - s } else { s - k }),
            distance(q * s, q * k) == (if q * s <= q * k { q * k - q * s } else { q * s - q * k }),
    ;
    assert(0x10_0000 * (q * gap) <= q * k) by (nonlinear_arith)
        requires
            0x10_0000 * gap <= k,
            q >= 0,
    ;
}

/// What the squares of a position's coordinates are, in units of one part in `w` twice: `up` of
/// the height, `out` of the way out from the axis, which is split into `x` and `z`.
proof fn lemma_squares(
    camera: OrbitCamera,
    yaw_sin: Single,
    yaw_cos: Single,
    pitch_sin: Single,
    pitch_cos: Single,
)
    requires
        camera.distance.finite(),
        camera.distance.value() >= 0x180_0000,
        on_unit_circle(yaw_sin, yaw_cos),
        on_unit_circle(pitch_sin, pitch_cos),
    ensures
        ({
            let at = camera.position(yaw_sin, yaw_cos, pitch_sin, pitch_cos);
            let (d, w) = (camera.distance.value(), pow2(149) as int);
            let (x, y, z) = (at.x.value() * w, at.y.value() * w, at.z.value() * w);
            let (scale, out) = ((d * w) * (d * w), (d * pitch_cos.value()) * (d
                * pitch_cos.value()));
            &&& at.x.finite() && at.y.finite() && at.z.finite()
            &&& 0x4_0000 * distance(x * x + y * y + z * z, scale) <= scale
            &&& 0x8_0000 * distance(x * x + z * z, out) <= scale
        }),
{
    let (d, w) = (camera.distance.value(), pow2(149) as int);
    let level = camera.distance.product(pitch_cos);
    let at = camera.position(yaw_sin, yaw_cos, pitch_sin, pitch_cos);
    lemma_pow2_pos(149);
    lemma_zero(camera.distance);
    lemma_zero(level);
    lemma_square_of_product(camera.distance, pitch_sin, d);
    lemma_square_of_product(camera.distance, pitch_cos, d);
    lemma_square_of_product(level, yaw_sin, d);
    lemma_square_of_product(level, yaw_cos, d);
    lemma_circle(d, pitch_sin.value(), pitch_cos.value(), w);
    lemma_circle(level.value(), yaw_sin.value(), yaw_cos.value(), w);
    let (m, h) = (level.abs_value(), level.value());
    let scale = (d * w) * (d * w);
    assert(4 * (d * w) * (d * w) == 4 * scale) by (nonlinear_arith)
        requires
            scale == (d * w) * (d * w),
    ;
    assert((h * w) * (h * w) <= scale) by (nonlinear_arith)
        requires
            h == m || h == -m,
            0 <= m <= d,
            w > 0,
            scale == (d * w) * (d * w),
    ;
}

/// The camera is at its distance from the cube's centre, but for rounding: the square of its
/// position is off by at most one part in 2^18.
pub proof fn law_camera_keeps_its_distance(
    camera: OrbitCamera,
    yaw_sin: Single,
    yaw_cos: Single,
    pitch_sin: Single,
    pitch_cos: Single,
)
    requires
        camera.wf(),
        !camera.distance.nan(),
        on_unit_circle(yaw_sin, yaw_cos),
        on_unit_circle(pitch_sin, pitch_cos),
    ensures
        ({
            let at = camera.position(yaw_sin, yaw_cos, pitch_sin, pitch_cos);
            let d = camera.distance.value();
            &&& at.x.finite() && at.y.finite() && at.z.finite()
            &&& 0x4_0000 * distance(square_length(at), d * d) <= d * d
        }),
{
    let at = camera.position(yaw_sin, yaw_cos, pitch_sin, pitch_cos);
    let (d, w) = (camera.distance.value(), pow2(149) as int);
    lemma_distance(camera);
    lemma_squares(camera, yaw_sin, yaw_cos, pitch_sin, pitch_cos);
    let (x, y, z) = (at.x.value(), at.y.value(), at.z.value());
    let (unit, total, whole) = (w * w, square_length(at), d * d);
    assert((x * w) * (x * w) + (y * w) * (y * w) + (z * w) * (z * w) == total * unit && (d * w) * (d
        * w) == whole * unit && unit > 0) by (nonlinear_arith)
        requires
            total == x * x + y * y + z * z,
            whole == d * d,
            unit == w * w,
            w > 0,
    ;
    lemma_divide(0x4_0000, total, whole, whole, unit);
}

proof fn lemma_divide(parts: int, a: int, b: int, bound: int, unit: int)
    requires
        unit > 0,
        parts > 0,
        parts * distance(a * unit, b * unit) <= bound * unit,
    ensures
        parts * distance(a, b) <= bound,
{
    let gap = distance(a, b);
    assert(distance(a * unit, b * unit) == gap * unit) by (nonlinear_arith)
        requires
            unit > 0,
            gap == (if a <= b { b - a } else { a - b }),
            distance(a * unit, b * unit) == (if a * unit <= b * unit {
                b * unit - a * unit
            } else {
                a * unit - b * unit
            }),
    ;
    assert(parts * gap <= bound) by (nonlinear_arith)
        requires
            parts * (gap * unit) <= bound * unit,
            unit > 0,
    ;
}

/// The distance is one from 2 to 20.
proof fn lemma_distance(camera: OrbitCamera)
    requires
        camera.wf(),
        !camera.distance.nan(),
    ensures
        camera.distance.finite(),
        2 * pow2(149) <= camera.distance.value() <= 20 * pow2(149),
        camera.distance.value() >= 0x180_0000,
        pow2(149) > 0,
{
    lemma2_to64();
    lemma_pow2_pos(117);
    lemma_pow2_adds(32, 117);
    law_camera_limits();
    law_between_finite_is_finite(nearest_distance(), camera.distance, farthest_distance());
    let p = pow2(117) as int;
    assert(0x1_0000_0000 * p >= 0x180_0000) by (nonlinear_arith)
        requires
            p >= 1,
    ;
}

/// The camera keeps off the axis about which it turns, and so off the poles, from which it could
/// not tell where up is: where the cosine of its pitch is not below 0.0707, which it is not up
/// to the limit of 1.5, it stays more than 0.14 away.
pub proof fn law_camera_keeps_off_the_axis(
    camera: OrbitCamera,
    yaw_sin: Single,
    yaw_cos: Single,
    pitch_sin: Single,
    pitch_cos: Single,
)
    requires
        camera.wf(),
        !camera.distance.nan(),
        on_unit_circle(yaw_sin, yaw_cos),
        on_unit_circle(pitch_sin, pitch_cos),
        10000 * pitch_cos.value() >= 707 * pow2(149),
    ensures
        10000 * square_off_axis(camera.position(yaw_sin, yaw_cos, pitch_sin, pitch_cos)) > 196
            * pow2(149) * pow2(149),
{
    let at = camera.position(yaw_sin, yaw_cos, pitch_sin, pitch_cos);
    let (d, w, c) = (camera.distance.value(), pow2(149) as int, pitch_cos.value());
    lemma_distance(camera);
    lemma_squares(camera, yaw_sin, yaw_cos, pitch_sin, pitch_cos);
    let (x, z) = (at.x.value(), at.z.value());
    let (unit, total, whole) = (w * w, square_off_axis(at), d * d);
    let out = (d * c) * (d * c);
    assert((x * w) * (x * w) + (z * w) * (z * w) == total * unit && (d * w) * (d * w) == whole
        * unit && unit > 0 && whole >= 4 * unit) by (nonlinear_arith)
        requires
            total == x * x + z * z,
            whole == d * d,
            unit == w * w,
            w > 0,
            d >= 2 * w,
    ;
    assert(100000000 * out >= 499849 * (whole * unit)) by (nonlinear_arith)
        requires
            out == (d * c) * (d * c),
            whole == d * d,
            unit == w * w,
            10000 * c >= 707 * w,
            w > 0,
    {
        assert((10000 * c) * (10000 * c) >= (707 * w) * (707 * w));
        assert(out == whole * (c * c));
        assert(100000000 * (c * c) >= 499849 * unit);
    }
    assert(whole * unit >= 4 * unit * unit) by (nonlinear_arith)
        requires
            whole >= 4 * unit,
            unit > 0,
    ;
    let (big, small) = (total * unit, unit * unit);
    assert(4 * unit * unit == 4 * small) by (nonlinear_arith)
        requires
            small == unit * unit,
    ;
    assert(10000 * big > 196 * small) by {
        assert(small > 0) by (nonlinear_arith)
            requires
                small == unit * unit,
                unit > 0,
        ;
    }
    assert(10000 * total > 196 * unit) by (nonlinear_arith)
        requires
            10000 * (total * unit) > 196 * (unit * unit),
            unit > 0,
    ;
    assert(196 * pow2(149) * pow2(149) == 196 * unit) by (nonlinear_arith)
        requires
            unit == pow2(149) as int * pow2(149) as int,
    ;
}

} // verus!

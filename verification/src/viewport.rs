//! Where a click is in the viewport.
use crate::accuracy::{distance, law_product_is_accurate, law_sum_is_accurate};
use crate::arithmetic::{
    law_exact_product, law_finite_number_has_sums, law_product_commutes, law_product_keeps_order,
    law_product_with_fraction, law_product_with_zero, law_small_term_does_not_overflow,
    law_sum_commutes, law_sum_keeps_order, law_sum_with_zero, lemma_exact_half, lemma_infinite,
    lemma_zero,
};
use crate::motion::{greatest, lemma_finite_size, lemma_greatest, lemma_multiplied, size};
use crate::ray::ONE;
use crate::rounding::law_rounding_keeps_exact;
use crate::scene::TWO;
use crate::single::{law_value_of_fields, magnitude_of, Single, ZERO};
use crate::vector::Vec2;
use vstd::arithmetic::power2::{
    lemma2_to64, lemma_pow2_adds, lemma_pow2_pos, lemma_pow2_strictly_increases, pow2,
};
use vstd::prelude::*;

verus! {

/// The bits of 0.5.
pub const ONE_HALF: u32 = 0x3f00_0000;

/// The point of a viewport that has the given coordinates, which go from -1 to 1 to the
/// right and upwards. The viewport's own go from its upper left corner.
pub open spec fn position_in(viewport: Vec2, x: Single, y: Single) -> Vec2 {
    let one = Single { bits: ONE };
    let one_half = Single { bits: ONE_HALF };
    Vec2 {
        x: x.sum(one).product(one_half).product(viewport.x),
        y: one.difference(y).product(one_half).product(viewport.y),
    }
}

/// The point of a viewport that has the given coordinates.
pub fn viewport_position(viewport: Vec2, x: Single, y: Single) -> (r: Vec2)
    ensures
        r == position_in(viewport, x, y),
        x.finite() && viewport.x.finite() ==> in_proportion(r.x, x.value(), viewport.x.value()),
        y.finite() && viewport.y.finite() ==> in_proportion(r.y, -y.value(), viewport.y.value()),
{
    proof {
        if x.finite() && viewport.x.finite() {
            lemma_placed_anywhere(viewport.x, x);
        }
        if y.finite() && viewport.y.finite() {
            lemma_placed_below_top(viewport.y, y);
        }
    }
    let one = Single::from_bits(ONE);
    let one_half = Single::from_bits(ONE_HALF);
    Vec2::new(
        x.plus(one).times(one_half).times(viewport.x),
        one.minus(y).times(one_half).times(viewport.y),
    )
}

/// The numbers that a viewport's coordinates are computed with, as powers of two.
pub(crate) proof fn lemma_powers()
    ensures
        (Single { bits: ONE_HALF }).abs_value() == pow2(148),
        (Single { bits: ONE }).abs_value() == pow2(149),
        (Single { bits: TWO }).abs_value() == pow2(150),
        pow2(149) == 2 * pow2(148),
        pow2(150) == 2 * pow2(149),
        pow2(148) > 0,
{
    lemma2_to64();
    lemma_pow2_pos(148);
    lemma_pow2_adds(148, 1);
    lemma_pow2_adds(149, 1);
    lemma_pow2_adds(23, 125);
    lemma_pow2_adds(23, 126);
    lemma_pow2_adds(23, 127);
    law_value_of_fields(Single { bits: ONE_HALF }, 126, 0);
    law_value_of_fields(Single { bits: ONE }, 127, 0);
    law_value_of_fields(Single { bits: TWO }, 128, 0);
}

/// A zero on both axes is the middle of the viewport. A size that is an odd multiple of the
/// least number has no middle.
pub proof fn law_middle_of_view_is_middle_of_viewport(viewport: Vec2, x: Single, y: Single)
    requires
        !viewport.x.nan() && !viewport.x.infinite() && viewport.x.value() % 2 == 0,
        !viewport.y.nan() && !viewport.y.infinite() && viewport.y.value() % 2 == 0,
        !x.nan() && x.value() == 0,
        !y.nan() && y.value() == 0,
    ensures
        2 * position_in(viewport, x, y).x.value() == viewport.x.value(),
        2 * position_in(viewport, x, y).y.value() == viewport.y.value(),
{
    let one = Single { bits: ONE };
    lemma_zero(x);
    lemma_zero(y);
    lemma_powers();
    assert(y.opposite().low_bits() == y.low_bits());
    law_sum_with_zero(one, x);
    law_sum_commutes(one, x);
    law_sum_with_zero(one, y.opposite());
    lemma_half_of_size(viewport.x);
    lemma_half_of_size(viewport.y);
}

proof fn lemma_half_of_size(size: Single)
    requires
        !size.nan(),
        !size.infinite(),
        size.value() % 2 == 0,
    ensures
        2 * (Single { bits: ONE }).product(Single { bits: ONE_HALF }).product(size).value()
            == size.value(),
{
    let one = Single { bits: ONE };
    let half = Single { bits: ONE_HALF };
    lemma_powers();
    assert(pow2(149) as int * pow2(148) as int == pow2(148) as int * pow2(149) as int)
        by (nonlinear_arith);
    law_exact_product(one, half, ONE_HALF as int);
    assert(one.product(half) == half);
    let k = lemma_exact_half(size);
    let (m, unit) = (magnitude_of(k), pow2(148) as int);
    assert(unit * (2 * m) == m * (2 * unit)) by (nonlinear_arith);
    law_exact_product(half, size, k);
    let r = half.product(size);
    assert(r == Single::signed(size.negative(), k as u32));
    assert(r.low_bits() == k && r.negative() == size.negative());
}

/// The least coordinate to the right and the greatest upwards are the viewport's upper left
/// corner, where its own coordinates begin; the opposite ones are its lower right corner.
pub proof fn law_corners_of_view_are_corners_of_viewport(viewport: Vec2)
    requires
        !viewport.x.nan() && !viewport.x.infinite(),
        !viewport.y.nan() && !viewport.y.infinite(),
    ensures
        ({
            let one = Single { bits: ONE };
            let corner = position_in(viewport, one.opposite(), one);
            &&& !corner.x.nan() && corner.x.value() == 0
            &&& !corner.y.nan() && corner.y.value() == 0
            &&& position_in(viewport, one, one.opposite()) == viewport
        }),
{
    let one = Single { bits: ONE };
    let half = Single { bits: ONE_HALF };
    let two = Single { bits: TWO };
    let zero = Single { bits: ZERO };
    lemma_powers();
    assert(one.opposite().opposite() == one);
    assert(one.opposite().value() == -one.value());
    assert(one.opposite().sum(one) == zero && one.difference(one) == zero);
    law_product_with_zero(zero, half);
    law_product_with_zero(zero.product(half), viewport.x);
    law_product_with_zero(zero.product(half), viewport.y);
    assert(one.sum(one) == two) by {
        law_rounding_keeps_exact(TWO as int, 1);
    }
    assert(pow2(150) as int * pow2(148) as int == pow2(149) as int * pow2(149) as int)
        by (nonlinear_arith)
        requires
            pow2(150) == 2 * pow2(149),
            pow2(149) == 2 * pow2(148),
    ;
    law_exact_product(two, half, ONE as int);
    assert(two.product(half) == one);
    lemma_whole_of_size(viewport.x);
    lemma_whole_of_size(viewport.y);
}

proof fn lemma_whole_of_size(size: Single)
    requires
        !size.nan(),
        !size.infinite(),
    ensures
        (Single { bits: ONE }).product(size) == size,
{
    let one = Single { bits: ONE };
    lemma_powers();
    assert(pow2(149) as int * size.abs_value() == size.abs_value() * pow2(149) as int)
        by (nonlinear_arith);
    law_exact_product(one, size, size.low_bits());
}

/// Where a coordinate from -1 to 1 is on a side of the given size.
pub open spec fn placed(size: Single, c: Single) -> Single {
    c.sum(Single { bits: ONE }).product(Single { bits: ONE_HALF }).product(size)
}

/// A coordinate is one from -1 to 1.
pub open spec fn in_view(c: Single) -> bool {
    let one = Single { bits: ONE };
    c.ge(one.opposite()) && one.ge(c)
}

/// The part of the side that lies before a coordinate: from nothing to the whole.
proof fn lemma_part(c: Single)
    requires
        in_view(c),
    ensures
        ({
            let (one, half) = (Single { bits: ONE }, Single { bits: ONE_HALF });
            let part = c.sum(one).product(half);
            &&& c.finite()
            &&& c.sum(one).finite()
            &&& 0 <= c.sum(one).value() <= 2 * pow2(149)
            &&& part.finite()
            &&& 0 <= part.value() <= pow2(149)
        }),
{
    let (one, half, two) = (Single { bits: ONE }, Single { bits: ONE_HALF }, Single { bits: TWO });
    let zero = Single { bits: ZERO };
    lemma_powers();
    assert(one.opposite().value() == -one.value());
    assert(one.opposite().low_bits() == one.low_bits());
    lemma_infinite(c);
    lemma_infinite(one);
    assert(one.opposite().sum(one) == zero);
    assert(one.sum(one) == two) by {
        law_rounding_keeps_exact(TWO as int, 1);
    }
    law_finite_number_has_sums(c, one);
    law_sum_keeps_order(one.opposite(), c, one);
    law_sum_keeps_order(c, one, one);
    let whole = c.sum(one);
    lemma_zero(zero);
    lemma_zero(whole);
    lemma_infinite(whole);
    lemma_infinite(two);
    assert(pow2(150) as int * pow2(148) as int == pow2(149) as int * pow2(149) as int)
        by (nonlinear_arith)
        requires
            pow2(150) == 2 * pow2(149),
            pow2(149) == 2 * pow2(148),
    ;
    law_exact_product(two, half, ONE as int);
    assert(two.product(half) == one);
    law_product_with_fraction(whole, half);
    law_product_with_zero(zero, half);
    lemma_zero(zero.product(half));
    law_product_keeps_order(zero, whole, half);
    law_product_keeps_order(whole, two, half);
}

/// A click in the view is placed in the viewport.
proof fn lemma_placed_on_side(size: Single, c: Single)
    requires
        in_view(c),
        size.finite(),
        size.value() >= 0,
    ensures
        placed(size, c).finite(),
        0 <= placed(size, c).value() <= size.value(),
{
    let part = c.sum(Single { bits: ONE }).product(Single { bits: ONE_HALF });
    lemma_part(c);
    lemma_zero(part);
    lemma_zero(size);
    law_product_with_fraction(size, part);
    law_product_commutes(size, part);
    lemma_zero(part.product(size));
    if size.low_bits() != 0 {
        let zero = Single { bits: ZERO };
        law_product_with_zero(zero, size);
        lemma_zero(zero.product(size));
        law_product_keeps_order(zero, part, size);
    }
}

/// A click is placed in proportion, but for rounding.
proof fn lemma_placed_in_proportion(size: Single, c: Single)
    requires
        in_view(c),
        size.finite(),
    ensures
        ({
            let one = pow2(149) as int;
            let place = placed(size, c).value();
            0x10_0000 * distance(2 * place * one, (c.value() + one) * size.value())
                <= size.abs_value() * one + 0x10_0000 * one
        }),
{
    let (one, half) = (Single { bits: ONE }, Single { bits: ONE_HALF });
    let (whole, part) = (c.sum(one), c.sum(one).product(half));
    let w = pow2(149) as int;
    lemma_powers();
    lemma_part(c);
    lemma_zero(whole);
    lemma_zero(part);
    lemma_zero(size);
    law_product_with_fraction(size, part);
    law_product_commutes(size, part);
    law_sum_is_accurate(c, one);
    law_product_is_accurate(whole, half);
    law_product_is_accurate(part, size);
    lemma_zero(part.product(size));
    let (a, b, v, p) = (whole.value(), part.value(), size.value(), part.product(size).value());
    let (x, n, u) = (c.value(), size.abs_value(), pow2(148) as int);
    assert(2 * distance(a * u, b * w) == distance(a * w, 2 * b * w)) by (nonlinear_arith)
        requires
            w == 2 * u,
            distance(a * u, b * w) == (if a * u <= b * w { b * w - a * u } else { a * u - b * w }),
            distance(a * w, 2 * b * w) == (if a * w <= 2 * b * w {
                2 * b * w - a * w
            } else {
                a * w - 2 * b * w
            }),
    ;
    assert(0x100_0000 * distance(a, 2 * b) <= 2 * b + 0x100_0000) by {
        assert(0x100_0000 * distance(a * w, (2 * b) * w) <= (2 * b + 0x100_0000) * w)
            by (nonlinear_arith)
            requires
                0x100_0000 * distance(a * w, 2 * b * w) <= 2 * (b * w) + 0x100_0000 * w,
                distance(a * w, (2 * b) * w) == distance(a * w, 2 * b * w),
        ;
        lemma_cancel(a, 2 * b, 2 * b + 0x100_0000, w);
    }
    assert(w >= 0x100_0000) by {
        lemma2_to64();
        lemma_pow2_adds(32, 117);
        lemma_pow2_pos(117);
        let q = pow2(117) as int;
        assert(0x1_0000_0000 * q >= 0x100_0000) by (nonlinear_arith)
            requires
                q >= 1,
        ;
    }
    lemma_proportion(x, a, b, v, n, p, w);
}

proof fn lemma_cancel(a: int, b: int, bound: int, unit: int)
    requires
        unit > 0,
        0x100_0000 * distance(a * unit, b * unit) <= bound * unit,
    ensures
        0x100_0000 * distance(a, b) <= bound,
{
    let gap = distance(a, b);
    assert(distance(a * unit, b * unit) == gap * unit) by (nonlinear_arith)
        requires
            unit > 0,
            gap == (if a <= b { b - a } else { a - b }),
            distance(a * unit, b * unit) == (if a * unit <= b * unit {
                b * unit - a * unit
            } else {
                a * unit - b * unit
            }),
    ;
    assert(0x100_0000 * gap <= bound) by (nonlinear_arith)
        requires
            0x100_0000 * (gap * unit) <= bound * unit,
            unit > 0,
    ;
}

/// How three roundings add up: of the sum `a`, of its half `b` and of the place `p`.
proof fn lemma_proportion(x: int, a: int, b: int, v: int, n: int, p: int, w: int)
    requires
        w >= 0x100_0000,
        n == distance(v, 0),
        0 <= a <= 2 * w,
        0 <= b <= w,
        distance(p, 0) <= n,
        0x100_0000 * distance(x + w, a) <= a,
        0x100_0000 * distance(a, 2 * b) <= 2 * b + 0x100_0000,
        0x100_0000 * distance(b * v, p * w) <= distance(p, 0) * w + 0x80_0000 * w,
    ensures
        0x10_0000 * distance(2 * p * w, (x + w) * v) <= n * w + 0x10_0000 * w,
{
    let (e1, e2) = (x + w - a, a - 2 * b);
    assert((x + w) * v == e1 * v + e2 * v + 2 * (b * v)) by (nonlinear_arith)
        requires
            e1 == x + w - a,
            e2 == a - 2 * b,
    ;
    assert(2 * p * w == 2 * (p * w)) by (nonlinear_arith);
    let (nw, pw) = (n * w, distance(p, 0) * w);
    assert(pw <= nw) by (nonlinear_arith)
        requires
            pw == distance(p, 0) * w,
            nw == n * w,
            distance(p, 0) <= n,
            w > 0,
    ;
    lemma_scaled_error(e1, v, n, 2 * w);
    lemma_scaled_error(e2, v, n, 3 * w);
    assert((2 * w) * n == 2 * nw && (3 * w) * n == 3 * nw) by (nonlinear_arith)
        requires
            nw == n * w,
    ;
}

proof fn lemma_scaled_error(e: int, v: int, n: int, bound: int)
    requires
        n == distance(v, 0),
        0x100_0000 * distance(e, 0) <= bound,
    ensures
        -(bound * n) <= 0x100_0000 * (e * v) <= bound * n,
{
    assert(-(bound * n) <= 0x100_0000 * (e * v) <= bound * n) by (nonlinear_arith)
        requires
            n == v || n == -v,
            n >= 0,
            -bound <= 0x100_0000 * e <= bound,
    ;
}

/// The opposite coordinate is in the view too, and a coordinate upwards is placed as the
/// opposite one is to the right.
proof fn lemma_upwards(viewport: Vec2, x: Single, y: Single)
    requires
        in_view(y),
    ensures
        in_view(y.opposite()),
        y.opposite().value() == -y.value(),
        position_in(viewport, x, y).x == placed(viewport.x, x),
        position_in(viewport, x, y).y == placed(viewport.y, y.opposite()),
{
    let one = Single { bits: ONE };
    assert(one.opposite().value() == -one.value());
    assert(y.opposite().value() == -y.value());
    assert(y.opposite().low_bits() == y.low_bits());
    assert(one.opposite().low_bits() == one.low_bits());
    law_sum_commutes(one, y.opposite());
}

/// A click in the view is placed in the viewport.
pub proof fn law_click_in_view_is_in_viewport(viewport: Vec2, x: Single, y: Single)
    requires
        in_view(x),
        in_view(y),
        viewport.x.finite() && viewport.x.value() >= 0,
        viewport.y.finite() && viewport.y.value() >= 0,
    ensures
        ({
            let at = position_in(viewport, x, y);
            &&& at.x.finite() && 0 <= at.x.value() <= viewport.x.value()
            &&& at.y.finite() && 0 <= at.y.value() <= viewport.y.value()
        }),
{
    lemma_upwards(viewport, x, y);
    lemma_placed_on_side(viewport.x, x);
    lemma_placed_on_side(viewport.y, y.opposite());
}

/// A click in the view is placed in proportion, so that its coordinates can be told from the
/// place: twice the place is one and the coordinate times the size, off by at most one part in
/// 2^20 of the size, and 2^-149.
pub proof fn law_click_is_placed_in_proportion(viewport: Vec2, x: Single, y: Single)
    requires
        in_view(x),
        in_view(y),
        viewport.x.finite(),
        viewport.y.finite(),
    ensures
        ({
            let (at, one) = (position_in(viewport, x, y), pow2(149) as int);
            &&& 0x10_0000 * distance(2 * at.x.value() * one, (x.value() + one) * viewport.x.value())
                <= viewport.x.abs_value() * one + 0x10_0000 * one
            &&& 0x10_0000 * distance(2 * at.y.value() * one, (one - y.value()) * viewport.y.value())
                <= viewport.y.abs_value() * one + 0x10_0000 * one
        }),
{
    lemma_upwards(viewport, x, y);
    lemma_placed_in_proportion(viewport.x, x);
    lemma_placed_in_proportion(viewport.y, y.opposite());
}

/// A click anywhere is placed in proportion, in view or not: twice the place is one and the
/// coordinate times the size, but for rounding. A place that is beyond the finite numbers is an
/// infinity.
pub open spec fn in_proportion(place: Single, c: int, side: int) -> bool {
    let one = pow2(149) as int;
    if place.finite() {
        0x100_0000 * distance(2 * (place.value() * one), (c + one) * side) <= 12 * (
        place.abs_value() * one) + 0x400_0000 * (size(side) + one)
    } else {
        !place.nan() && size((c + one) * side) >= greatest() * one
    }
}

/// How three roundings add up where nothing is known of the coordinate.
proof fn lemma_any_proportion(x: int, a: int, b: int, v: int, p: int, w: int)
    requires
        w > 0,
        0x100_0000 * distance(x + w, a) <= size(a),
        0x100_0000 * distance(a, 2 * b) <= 2 * size(b) + 0x100_0000,
        0x100_0000 * distance(b * v, p * w) <= size(p) * w + 0x80_0000 * w,
    ensures
        0x100_0000 * distance(2 * (p * w), (x + w) * v) <= 12 * (size(p) * w) + 0x400_0000 * (size(
            v,
        ) + w),
{
    let (e1, e2, n) = (x + w - a, a - 2 * b, size(v));
    let (pw, bv) = (size(p) * w, size(b * v));
    assert((x + w) * v == e1 * v + e2 * v + 2 * (b * v)) by (nonlinear_arith)
        requires
            e1 == x + w - a,
            e2 == a - 2 * b,
    ;
    assert(size(p * w) == pw) by (nonlinear_arith)
        requires
            pw == size(p) * w,
            size(p) == (if p < 0 { -p } else { p }),
            size(p * w) == (if p * w < 0 { -(p * w) } else { p * w }),
            w > 0,
    ;
    let bn = size(b) * n;
    assert(bn == bv) by (nonlinear_arith)
        requires
            bn == size(b) * n,
            n == (if v < 0 { -v } else { v }),
            size(b) == (if b < 0 { -b } else { b }),
            bv == (if b * v < 0 { -(b * v) } else { b * v }),
    ;
    lemma_scaled_error(e2, v, n, 2 * size(b) + 0x100_0000);
    lemma_scaled_error(e1, v, n, 3 * size(b) + 0x100_0000);
    assert((2 * size(b) + 0x100_0000) * n == 2 * bn + 0x100_0000 * n && (3 * size(b) + 0x100_0000)
        * n == 3 * bn + 0x100_0000 * n) by (nonlinear_arith)
        requires
            bn == size(b) * n,
    ;
    assert(0x400_0000 * (n + w) == 0x400_0000 * n + 0x400_0000 * w);
    assert(pw >= 0) by (nonlinear_arith)
        requires
            pw == size(p) * w,
            size(p) >= 0,
            w > 0,
    ;
}

proof fn lemma_placed_anywhere(side: Single, c: Single)
    requires
        c.finite(),
        side.finite(),
    ensures
        in_proportion(placed(side, c), c.value(), side.value()),
{
    let (one, half) = (Single { bits: ONE }, Single { bits: ONE_HALF });
    let (whole, part) = (c.sum(one), c.sum(one).product(half));
    let place = part.product(side);
    let (w, u) = (pow2(149) as int, pow2(148) as int);
    lemma_powers();
    lemma_greatest();
    lemma_zero(one);
    assert(2 * one.abs_value() < pow2(253)) by {
        lemma2_to64();
        lemma_pow2_strictly_increases(150, 253);
    }
    law_sum_commutes(c, one);
    law_small_term_does_not_overflow(one, c);
    law_sum_is_accurate(c, one);
    law_product_with_fraction(whole, half);
    law_product_is_accurate(whole, half);
    lemma_multiplied(part, side);
    lemma_finite_size(whole);
    lemma_finite_size(part);
    lemma_finite_size(side);
    let (a, b, v) = (whole.value(), part.value(), side.value());
    let bw = size(b) * w;
    assert(2 * distance(a * u, b * w) == distance(a * w, (2 * b) * w)) by (nonlinear_arith)
        requires
            w == 2 * u,
            distance(a * u, b * w) == (if a * u <= b * w { b * w - a * u } else { a * u - b * w }),
            distance(a * w, (2 * b) * w) == (if a * w <= (2 * b) * w {
                (2 * b) * w - a * w
            } else {
                a * w - (2 * b) * w
            }),
    ;
    assert((2 * size(b) + 0x100_0000) * w == 2 * bw + 0x100_0000 * w) by (nonlinear_arith)
        requires
            bw == size(b) * w,
    ;
    lemma_cancel(a, 2 * b, 2 * size(b) + 0x100_0000, w);
    if place.finite() {
        lemma_finite_size(place);
        lemma_any_proportion(c.value(), a, b, v, place.value(), w);
    } else {
        lemma_infinite_place(c.value(), a, b, v, w);
    }
}

/// Where the place is beyond the finite numbers, so is the size that it is in proportion to.
proof fn lemma_infinite_place(x: int, a: int, b: int, v: int, w: int)
    requires
        w == pow2(149),
        size(v) <= greatest(),
        0x100_0000 * distance(x + w, a) <= size(a),
        0x100_0000 * distance(a, 2 * b) <= 2 * size(b) + 0x100_0000,
        size(b * v) >= greatest() * w,
    ensures
        size((x + w) * v) >= greatest() * w,
{
    let (g, n) = (greatest(), size(v));
    lemma_powers();
    lemma_greatest();
    lemma_pow2_pos(149);
    assert(size(b) * n == size(b * v)) by (nonlinear_arith)
        requires
            n == (if v < 0 { -v } else { v }),
            size(b) == (if b < 0 { -b } else { b }),
            size(b * v) == (if b * v < 0 { -(b * v) } else { b * v }),
    ;
    assert(size(b) >= w) by (nonlinear_arith)
        requires
            size(b) * n >= g * w,
            0 <= n <= g,
            g > 0,
            w > 0,
            size(b) >= 0,
    ;
    lemma_unit_is_large();
    assert(size(x + w) >= size(b));
    assert(size((x + w) * v) >= size(b) * n) by (nonlinear_arith)
        requires
            size(x + w) >= size(b),
            n == (if v < 0 { -v } else { v }),
            size(x + w) == (if x + w < 0 { -(x + w) } else { x + w }),
            size((x + w) * v) == (if (x + w) * v < 0 { -((x + w) * v) } else { (x + w) * v }),
    ;
}

proof fn lemma_unit_is_large()
    ensures
        pow2(149) >= 0x1000_0000,
{
    lemma2_to64();
    lemma_pow2_adds(32, 117);
    lemma_pow2_pos(117);
    let q = pow2(117) as int;
    assert(0x1_0000_0000 * q >= 0x1000_0000) by (nonlinear_arith)
        requires
            q >= 1,
    ;
}

/// The same of the second coordinate, which counts from the upper side.
proof fn lemma_placed_below_top(side: Single, y: Single)
    requires
        y.finite(),
        side.finite(),
    ensures
        in_proportion(
            (Single { bits: ONE }).difference(y).product(Single { bits: ONE_HALF }).product(side),
            -y.value(),
            side.value(),
        ),
{
    assert(y.opposite().value() == -y.value());
    assert(y.opposite().low_bits() == y.low_bits());
    law_sum_commutes(Single { bits: ONE }, y.opposite());
    lemma_placed_anywhere(side, y.opposite());
}

/// A click anywhere is placed in proportion, to the right from the left side and downwards from
/// the upper side, each coordinate by itself.
pub proof fn law_any_click_is_placed_in_proportion(viewport: Vec2, x: Single, y: Single)
    requires
        x.finite(),
        y.finite(),
        viewport.x.finite(),
        viewport.y.finite(),
    ensures
        in_proportion(position_in(viewport, x, y).x, x.value(), viewport.x.value()),
        in_proportion(position_in(viewport, x, y).y, -y.value(), viewport.y.value()),
{
    lemma_placed_anywhere(viewport.x, x);
    lemma_placed_below_top(viewport.y, y);
}

/// Each coordinate of the place comes from its own coordinate of the click and its own side of
/// the viewport alone.
pub proof fn law_coordinates_of_click_are_independent(
    viewport: Vec2,
    other: Vec2,
    x: Single,
    y: Single,
    other_x: Single,
    other_y: Single,
)
    ensures
        viewport.x == other.x ==> position_in(viewport, x, y).x == position_in(other, x, other_y).x,
        viewport.y == other.y ==> position_in(viewport, x, y).y == position_in(other, other_x, y).y,
{
}

} // verus!

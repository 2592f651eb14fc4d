//! What makes a result the right one: no other number is closer to the exact result. Infinity
//! takes part as the number that would follow the greatest finite one.
use crate::accuracy::distance;
use crate::arithmetic::{law_quotient_sign, lemma_rounded, lemma_zero, NAN};
use crate::rounding::{is_nearest, nearest};
use crate::single::{law_magnitude_increases, magnitude_of, Single, INFINITY};
use vstd::arithmetic::power2::{lemma_pow2_pos, pow2};
use vstd::prelude::*;

verus! {

/// The rounded magnitude is at least as close as any other. Where another is as close, the
/// rounded one has the even encoding.
proof fn lemma_closest(k: int, num: int, den: int, j: int)
    requires
        den > 0,
        num >= 0,
        is_nearest(k, num, den),
        0 <= j <= INFINITY,
    ensures
        distance(num, magnitude_of(k) * den) <= distance(num, magnitude_of(j) * den),
        j != k && distance(num, magnitude_of(k) * den) == distance(num, magnitude_of(j) * den)
            ==> k % 2 == 0,
{
    let (m, o) = (magnitude_of(k), magnitude_of(j));
    if j < k {
        let below = magnitude_of(k - 1);
        law_magnitude_increases(k - 1, k);
        if j < k - 1 {
            law_magnitude_increases(j, k - 1);
        }
        assert(den * (below + m) == below * den + m * den) by (nonlinear_arith);
        assert(o * den <= below * den && below * den < m * den && (j < k - 1 ==> o * den < below
            * den)) by (nonlinear_arith)
            requires
                o <= below < m,
                j < k - 1 ==> o < below,
                den > 0,
        ;
    } else if k < j {
        let above = magnitude_of(k + 1);
        law_magnitude_increases(k, k + 1);
        if k + 1 < j {
            law_magnitude_increases(k + 1, j);
        }
        assert(den * (m + above) == m * den + above * den) by (nonlinear_arith);
        assert(above * den <= o * den && m * den < above * den && (k + 1 < j ==> above * den < o
            * den)) by (nonlinear_arith)
            requires
                m < above <= o,
                k + 1 < j ==> above < o,
                den > 0,
        ;
    }
}

/// A result is at least as close to the exact one as another number is; where both are as close,
/// the result has the even encoding.
pub open spec fn as_close(exact: int, r: int, other: int, even: bool) -> bool {
    &&& distance(exact, r) <= distance(exact, other)
    &&& distance(exact, r) == distance(exact, other) && r != other ==> even
}

/// Rounding with a sign.
proof fn lemma_closest_signed(negative: bool, num: int, den: int, r: int, k: int, x: Single)
    requires
        den > 0,
        num >= 0,
        is_nearest(k, num, den),
        r == if negative { -magnitude_of(k) } else { magnitude_of(k) },
        !x.nan(),
    ensures
        as_close(if negative { -num } else { num }, r * den, x.value() * den, k % 2 == 0),
{
    let (m, o, v) = (magnitude_of(k), x.abs_value(), x.value());
    lemma_zero(x);
    lemma_closest(k, num, den, x.low_bits());
    lemma_closest(k, num, den, 0);
    assert(magnitude_of(0) == 0);
    assert(0 * den == 0);
    assert((-m) * den == -(m * den) && (-o) * den == -(o * den) && o * den >= 0)
        by (nonlinear_arith)
        requires
            o >= 0,
            den > 0,
    ;
    assert(o > 0 ==> o * den > 0) by (nonlinear_arith)
        requires
            den > 0,
    ;
}

/// No number is closer to the sum of two finite numbers than the rounded sum.
pub proof fn law_sum_is_closest(a: Single, b: Single, x: Single)
    requires
        a.finite(),
        b.finite(),
        !x.nan(),
    ensures
        !a.sum(b).nan(),
        as_close(
            a.value() + b.value(),
            a.sum(b).value(),
            x.value(),
            a.sum(b).low_bits() % 2 == 0,
        ),
{
    let (total, r) = (a.value() + b.value(), a.sum(b));
    lemma_zero(r);
    if total != 0 {
        let num = if total < 0 { -total } else { total };
        lemma_rounded(total < 0, num, 1);
        lemma_closest_signed(total < 0, num, 1, r.value(), nearest(num, 1), x);
    }
}

/// No number is closer to the difference of two finite numbers than the rounded difference.
pub proof fn law_difference_is_closest(a: Single, b: Single, x: Single)
    requires
        a.finite(),
        b.finite(),
        !x.nan(),
    ensures
        !a.difference(b).nan(),
        as_close(
            a.value() - b.value(),
            a.difference(b).value(),
            x.value(),
            a.difference(b).low_bits() % 2 == 0,
        ),
{
    assert(b.opposite().low_bits() == b.low_bits());
    assert(b.opposite().value() == -b.value());
    law_sum_is_closest(a, b.opposite(), x);
}

/// No number is closer to the product of two finite numbers than the rounded product.
pub proof fn law_product_is_closest(a: Single, b: Single, x: Single)
    requires
        a.finite(),
        b.finite(),
        !x.nan(),
    ensures
        !a.product(b).nan(),
        as_close(
            a.value() * b.value(),
            a.product(b).value() * pow2(149),
            x.value() * pow2(149),
            a.product(b).low_bits() % 2 == 0,
        ),
{
    let (n, m, w) = (a.abs_value(), b.abs_value(), pow2(149) as int);
    let (r, negative) = (a.product(b), a.negative() != b.negative());
    lemma_zero(a);
    lemma_zero(b);
    lemma_pow2_pos(149);
    assert(n * m >= 0 && (-n) * m == -(n * m) && n * (-m) == -(n * m) && (-n) * (-m) == n * m)
        by (nonlinear_arith)
        requires
            n >= 0,
            m >= 0,
    ;
    lemma_rounded(negative, n * m, w);
    lemma_closest_signed(negative, n * m, w, r.value(), nearest(n * m, w), x);
}

/// No number is closer to the quotient of two finite numbers than the rounded quotient. All is
/// multiplied by the divisor.
pub proof fn law_quotient_is_closest(a: Single, b: Single, x: Single)
    requires
        a.finite(),
        b.finite(),
        b.value() != 0,
        !x.nan(),
    ensures
        !a.quotient(b).nan(),
        as_close(
            a.value() * pow2(149),
            a.quotient(b).value() * b.value(),
            x.value() * b.value(),
            a.quotient(b).low_bits() % 2 == 0,
        ),
{
    let (n, m, w) = (a.abs_value(), b.abs_value(), pow2(149) as int);
    let (r, negative) = (a.quotient(b), a.negative() != b.negative());
    lemma_zero(a);
    lemma_zero(b);
    lemma_pow2_pos(149);
    let num = n * w;
    assert(num >= 0 && (-n) * w == -num) by (nonlinear_arith)
        requires
            num == n * w,
            n >= 0,
            w > 0,
    ;
    lemma_rounded(negative, num, m);
    lemma_closest_signed(negative, num, m, r.value(), nearest(num, m), x);
    let (p, q) = (r.value(), x.value());
    assert(p * (-m) == -(p * m) && q * (-m) == -(q * m)) by (nonlinear_arith);
}

/// No number is closer to a count than the number that it is rounded to.
pub proof fn law_count_is_closest(n: u32, x: Single)
    requires
        !x.nan(),
    ensures
        !Single::count(n).nan(),
        as_close(
            n * pow2(149),
            Single::count(n).value(),
            x.value(),
            Single::count(n).low_bits() % 2 == 0,
        ),
{
    let (num, r) = (n * pow2(149), Single::count(n));
    lemma_pow2_pos(149);
    assert(num >= 0) by (nonlinear_arith)
        requires
            num == n * pow2(149),
    ;
    lemma_rounded(false, num, 1);
    lemma_closest_signed(false, num, 1, r.value(), nearest(num, 1), x);
}

/// What an infinity does to a sum, a product and a quotient with a finite number, and that what
/// is no number gives none.
pub proof fn law_infinity_and_nan(infinity: Single, x: Single, none: Single)
    requires
        infinity.infinite(),
        x.finite(),
        none.nan(),
    ensures
        infinity.sum(x) == infinity && x.sum(infinity) == infinity,
        infinity.sum(infinity) == infinity,
        infinity.sum(infinity.opposite()).nan(),
        x.value() != 0 ==> {
            &&& infinity.product(x).infinite()
            &&& infinity.product(x).negative() == (infinity.negative() != x.negative())
        },
        x.value() == 0 ==> infinity.product(x).nan(),
        x.quotient(infinity).low_bits() == 0,
        infinity.quotient(x).infinite(),
        none.sum(x).nan() && x.sum(none).nan() && none.product(x).nan() && x.product(none).nan(),
        none.quotient(x).nan() && x.quotient(none).nan(),
{
    lemma_zero(x);
    lemma_zero(infinity);
    assert((Single { bits: NAN }).nan());
    assert(infinity.opposite().low_bits() == infinity.low_bits());
}

/// A sum that is zero has a sign only where both terms have one.
pub proof fn law_sign_of_zero_sum(a: Single, b: Single)
    requires
        a.finite(),
        b.finite(),
        a.value() + b.value() == 0,
    ensures
        a.sum(b).low_bits() == 0,
        a.sum(b).negative() == (a.negative() && b.negative()),
{
}

/// What a quotient is where it is not one of finite numbers by a finite one that is not zero:
/// what is divided by zero is infinite, what is divided by infinity is zero, and two zeros or
/// two infinities have no quotient.
pub proof fn law_quotient_beyond_finite_numbers(a: Single, b: Single)
    requires
        !a.nan(),
        !b.nan(),
    ensures
        a.value() != 0 && b.value() == 0 ==> a.quotient(b).infinite(),
        a.finite() && b.infinite() ==> a.quotient(b).low_bits() == 0,
        a.infinite() && b.finite() ==> a.quotient(b).infinite(),
        !a.quotient(b).nan() ==> a.quotient(b).negative() == (a.negative() != b.negative()),
        a.quotient(b).nan() <==> a.value() == 0 && b.value() == 0 || a.infinite() && b.infinite(),
{
    lemma_zero(a);
    lemma_zero(b);
    assert((Single { bits: NAN }).nan());
    if !a.quotient(b).nan() {
        law_quotient_sign(a, b);
    }
    if a.finite() && b.finite() && b.value() != 0 {
        law_quotient_is_closest(a, b, a);
    }
}

/// Clamping gives the number between the bounds that is closest, and keeps what is between them.
pub proof fn law_clamp_is_closest(x: Single, low: Single, high: Single, y: Single)
    requires
        !x.nan(),
        y.ge(low),
        high.ge(y),
    ensures
        distance(x.value(), x.limited(low, high).value()) <= distance(x.value(), y.value()),
        x.ge(low) && high.ge(x) ==> x.limited(low, high) == x,
{
}

} // verus!

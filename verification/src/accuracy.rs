//! How far the result of an operation is from the exact one: at most half of the distance
//! to the next number, which is one part in 2^24 of a result that does not underflow.
use crate::arithmetic::{lemma_rounded, lemma_zero};
use crate::ray::ONE;
use crate::rounding::{
    is_nearest, law_nearest_is_unique, law_rounding_keeps_exact, law_rounding_keeps_order,
    lemma_encoding, nearest, rounded,
};
use crate::single::{
    law_magnitude_increases, law_value_of_fields, magnitude_of, Single, INFINITY,
};
use vstd::arithmetic::power2::{
    lemma2_to64, lemma_pow2_adds, lemma_pow2_pos, lemma_pow2_strictly_increases, pow2,
};
use vstd::prelude::*;

verus! {

/// The encoding of the least magnitude with all its bits, 2^-126. Below it a result may be
/// rounded more coarsely: it underflows.
pub const LEAST_NORMAL: u32 = 0x80_0000;

/// The distance of two integers.
pub open spec fn distance(a: int, b: int) -> int {
    if a <= b {
        b - a
    } else {
        a - b
    }
}

impl Single {
    /// A finite number that has all its bits.
    pub open spec fn normal(self) -> bool {
        LEAST_NORMAL <= self.low_bits() < INFINITY
    }
}

/// The distances from a magnitude to its neighbours.
pub(crate) proof fn lemma_spacing(k: int)
    requires
        0 <= k,
    ensures
        ({
            let gap = magnitude_of(k + 1) - magnitude_of(k);
            &&& gap >= 1
            &&& k > 0 ==> magnitude_of(k) - magnitude_of(k - 1) <= gap
            &&& k >= LEAST_NORMAL ==> gap * LEAST_NORMAL <= magnitude_of(k)
            &&& k < LEAST_NORMAL ==> gap == 1 && magnitude_of(k) == k
        }),
{
    lemma2_to64();
    if k < LEAST_NORMAL {
        assert(magnitude_of(k) == k);
        if k + 1 == LEAST_NORMAL {
            assert(magnitude_of(k + 1) == 0x80_0000 * pow2(0));
        } else {
            assert(magnitude_of(k + 1) == k + 1);
        }
    } else {
        let q = k / 0x80_0000 - 1;
        let m = 0x80_0000 + k % 0x80_0000;
        let p = pow2(q as nat) as int;
        lemma_pow2_pos(q as nat);
        assert(k == q * 0x80_0000 + m);
        lemma_encoding(q, m);
        lemma_encoding(q, m + 1);
        assert((m + 1) * p == m * p + p && p * 0x80_0000 <= m * p) by (nonlinear_arith)
            requires
                m >= 0x80_0000,
                p >= 0,
        ;
        assert(magnitude_of(k + 1) - magnitude_of(k) == p);
        if m > 0x80_0000 {
            lemma_encoding(q, m - 1);
            assert((m - 1) * p == m * p - p) by (nonlinear_arith);
        } else if q == 0 {
            assert(magnitude_of(k - 1) == k - 1);
            assert(m * p == m) by (nonlinear_arith)
                requires
                    p == 1,
            ;
        } else {
            lemma_encoding(q - 1, 0xff_ffff);
            lemma_pow2_adds((q - 1) as nat, 1);
            lemma_pow2_pos((q - 1) as nat);
            let half = pow2((q - 1) as nat) as int;
            assert(p == 2 * half && m * p == 0x100_0000 * half) by (nonlinear_arith)
                requires
                    p == half * 2,
                    m == 0x80_0000,
            ;
            assert((q - 1) * 0x80_0000 + 0xff_ffff == k - 1);
        }
    }
}

/// How far a finite rounded magnitude is from the exact one.
pub(crate) proof fn lemma_rounding_error(k: int, num: int, den: int)
    requires
        den > 0,
        num >= 0,
        k < INFINITY,
        is_nearest(k, num, den),
    ensures
        k >= LEAST_NORMAL || den == 1 || num == 0 ==> 0x100_0000 * distance(
            num,
            magnitude_of(k) * den,
        ) <= magnitude_of(k) * den,
        0x100_0000 * distance(num, magnitude_of(k) * den) <= magnitude_of(k) * den + 0x80_0000
            * den,
{
    lemma_spacing(k);
    let m = magnitude_of(k);
    let gap = magnitude_of(k + 1) - m;
    assert(den * (m + magnitude_of(k + 1)) == 2 * (m * den) + den * gap) by (nonlinear_arith)
        requires
            gap == magnitude_of(k + 1) - m,
    ;
    assert(magnitude_of(0) == 0);
    if k > 0 {
        let below = magnitude_of(k - 1);
        assert(den * (below + m) >= 2 * (m * den) - den * gap) by (nonlinear_arith)
            requires
                m - below <= gap,
                den > 0,
        ;
    }
    assert(m * den >= 0 && den * gap >= 0) by (nonlinear_arith)
        requires
            m >= 0,
            den > 0,
            gap >= 1,
    ;
    assert(2 * distance(num, m * den) <= den * gap);
    if k >= LEAST_NORMAL {
        assert(0x80_0000 * (den * gap) <= m * den) by (nonlinear_arith)
            requires
                gap * 0x80_0000 <= m,
                den > 0,
        ;
    } else {
        assert(den * gap == den) by (nonlinear_arith)
            requires
                gap == 1,
        ;
        if num == 0 {
            law_rounding_keeps_exact(0, den);
            assert(magnitude_of(0) * den == 0) by (nonlinear_arith)
                requires
                    magnitude_of(0) == 0,
            ;
            law_nearest_is_unique(k, 0, num, den);
        }
    }
}

/// A finite sum is off by at most one part in 2^24 of itself.
pub proof fn law_sum_is_accurate(a: Single, b: Single)
    requires
        !a.nan(),
        !b.nan(),
        !a.infinite(),
        !b.infinite(),
        !a.sum(b).infinite(),
    ensures
        !a.sum(b).nan(),
        0x100_0000 * distance(a.value() + b.value(), a.sum(b).value()) <= a.sum(b).abs_value(),
{
    let total = a.value() + b.value();
    let r = a.sum(b);
    lemma_zero(r);
    if total != 0 {
        let num = if total < 0 { -total } else { total };
        lemma_rounded(total < 0, num, 1);
        lemma_rounding_error(nearest(num, 1), num, 1);
    }
}

/// A finite difference is off by at most one part in 2^24 of itself.
pub proof fn law_difference_is_accurate(a: Single, b: Single)
    requires
        !a.nan(),
        !b.nan(),
        !a.infinite(),
        !b.infinite(),
        !a.difference(b).infinite(),
    ensures
        !a.difference(b).nan(),
        0x100_0000 * distance(a.value() - b.value(), a.difference(b).value()) <= a.difference(
            b,
        ).abs_value(),
{
    assert(b.opposite().low_bits() == b.low_bits());
    assert(b.opposite().value() == -b.value());
    law_sum_is_accurate(a, b.opposite());
}

/// A finite product is off by at most one part in 2^24 of itself, and, where it underflows,
/// by at most half of 2^-149 besides. The exact product of two values is a multiple of
/// 2^-298.
pub proof fn law_product_is_accurate(a: Single, b: Single)
    requires
        !a.nan(),
        !b.nan(),
        !a.infinite(),
        !b.infinite(),
        !a.product(b).infinite(),
    ensures
        ({
            let r = a.product(b);
            let error = distance(a.value() * b.value(), r.value() * pow2(149));
            &&& error == distance(a.abs_value() * b.abs_value(), r.abs_value() * pow2(149))
            &&& 0x100_0000 * error <= r.abs_value() * pow2(149) + 0x80_0000 * pow2(149)
            &&& r.normal() || a.value() == 0 || b.value() == 0 ==> 0x100_0000 * error
                <= r.abs_value() * pow2(149)
        }),
{
    let (x, y) = (a.abs_value(), b.abs_value());
    let unit = pow2(149) as int;
    let r = a.product(b);
    lemma_zero(a);
    lemma_zero(b);
    lemma_pow2_pos(149);
    assert(x * y >= 0 && (x == 0 || y == 0 ==> x * y == 0)) by (nonlinear_arith)
        requires
            x >= 0,
            y >= 0,
    ;
    lemma_rounded(a.negative() != b.negative(), x * y, unit);
    lemma_rounding_error(nearest(x * y, unit), x * y, unit);
    assert((-x) * y == -(x * y) && x * (-y) == -(x * y) && (-x) * (-y) == x * y)
        by (nonlinear_arith);
    let m = r.abs_value();
    assert((-m) * unit == -(m * unit)) by (nonlinear_arith);
}

/// A finite quotient that does not underflow is off by at most one part in 2^24 of itself.
pub proof fn law_quotient_is_accurate(a: Single, b: Single)
    requires
        !a.nan(),
        !b.nan(),
        !a.infinite(),
        !b.infinite(),
        b.value() != 0,
        a.quotient(b).normal(),
    ensures
        ({
            let r = a.quotient(b).abs_value() * b.abs_value();
            0x100_0000 * distance(a.abs_value() * pow2(149), r) <= r
        }),
{
    let num = a.abs_value() * pow2(149);
    let den = b.abs_value();
    lemma_zero(a);
    lemma_zero(b);
    lemma_pow2_pos(149);
    assert(num >= 0) by (nonlinear_arith)
        requires
            num == a.abs_value() * pow2(149),
            a.abs_value() >= 0,
            pow2(149) > 0,
    ;
    lemma_rounded(a.negative() != b.negative(), num, den);
    lemma_rounding_error(nearest(num, den), num, den);
}

/// The magnitude lies between two powers of two, as a multiple of 2^-149.
pub(crate) open spec fn ranges(x: Single, low: nat, high: nat) -> bool {
    pow2(low) <= x.abs_value() <= pow2(high)
}

/// The encoding of a power of two.
proof fn lemma_power_encoding(e: nat)
    requires
        23 <= e,
    ensures
        magnitude_of((e - 22) * 0x80_0000) == pow2(e),
{
    lemma2_to64();
    lemma_encoding(e - 23, 0x80_0000);
    lemma_pow2_adds(23, (e - 23) as nat);
}

/// What lies between two powers of two rounds to a number between them.
pub(crate) proof fn lemma_rounded_range(negative: bool, num: int, den: int, low: nat, high: nat)
    requires
        den > 0,
        23 <= low,
        high <= 276,
        pow2(low) * den <= num <= pow2(high) * den,
    ensures
        rounded(negative, num, den).normal(),
        rounded(negative, num, den).negative() == negative,
        ranges(rounded(negative, num, den), low, high),
{
    lemma_pow2_pos(low);
    lemma_pow2_pos(high);
    assert(num >= 0) by (nonlinear_arith)
        requires
            pow2(low) * den <= num,
            pow2(low) > 0,
            den > 0,
    ;
    assert(low <= high) by {
        if high < low {
            lemma_pow2_strictly_increases(high, low);
            assert(pow2(high) * den < pow2(low) * den) by (nonlinear_arith)
                requires
                    pow2(high) < pow2(low),
                    den > 0,
            ;
        }
    }
    let (a, k, b) = ((low - 22) * 0x80_0000, nearest(num, den), (high - 22) * 0x80_0000);
    lemma_rounded(negative, num, den);
    lemma_power_encoding(low);
    lemma_power_encoding(high);
    law_rounding_keeps_exact(a, den);
    law_rounding_keeps_exact(b, den);
    let (x, y) = (pow2(low) * den, pow2(high) * den);
    assert(x * den <= num * den && num * den <= y * den) by (nonlinear_arith)
        requires
            x <= num <= y,
            den > 0,
    ;
    law_rounding_keeps_order(a, x, den, k, num, den);
    law_rounding_keeps_order(k, num, den, b, y, den);
    if a < k {
        law_magnitude_increases(a, k);
    }
    if k < b {
        law_magnitude_increases(k, b);
    }
}

/// The range of a product.
pub(crate) proof fn lemma_product_range(
    a: Single,
    b: Single,
    a_low: nat,
    a_high: nat,
    b_low: nat,
    b_high: nat,
)
    requires
        a.finite(),
        b.finite(),
        ranges(a, a_low, a_high),
        ranges(b, b_low, b_high),
        172 <= a_low + b_low,
        149 <= a_high + b_high <= 425,
    ensures
        a.product(b).normal(),
        ranges(a.product(b), (a_low + b_low - 149) as nat, (a_high + b_high - 149) as nat),
{
    let (low, high) = ((a_low + b_low - 149) as nat, (a_high + b_high - 149) as nat);
    lemma_pow2_adds(a_low, b_low);
    lemma_pow2_adds(a_high, b_high);
    lemma_pow2_adds(low, 149);
    lemma_pow2_adds(high, 149);
    lemma_pow2_pos(a_low);
    lemma_pow2_pos(b_low);
    lemma_pow2_pos(149);
    let (x, y) = (a.abs_value(), b.abs_value());
    assert(pow2(a_low) * pow2(b_low) <= x * y <= pow2(a_high) * pow2(b_high)) by (nonlinear_arith)
        requires
            0 < pow2(a_low) <= x <= pow2(a_high),
            0 < pow2(b_low) <= y <= pow2(b_high),
    ;
    lemma_rounded_range(a.negative() != b.negative(), x * y, pow2(149) as int, low, high);
}

/// The range of an inverse.
pub(crate) proof fn lemma_inverse_range(b: Single, low: nat, high: nat)
    requires
        b.finite(),
        ranges(b, low, high),
        22 <= low <= high <= 275,
    ensures
        (Single { bits: ONE }).quotient(b).normal(),
        ranges((Single { bits: ONE }).quotient(b), (298 - high) as nat, (298 - low) as nat),
{
    let one = Single { bits: ONE };
    let (least, most) = ((298 - high) as nat, (298 - low) as nat);
    let y = b.abs_value();
    assert(one.abs_value() == pow2(149)) by {
        lemma2_to64();
        lemma_pow2_adds(23, 126);
        law_value_of_fields(one, 127, 0);
    }
    lemma_pow2_adds(149, 149);
    lemma_pow2_adds(least, high);
    lemma_pow2_adds(most, low);
    lemma_pow2_pos(low);
    lemma_pow2_pos(least);
    lemma_pow2_pos(most);
    assert(pow2(least) * y <= pow2(298) <= pow2(most) * y) by (nonlinear_arith)
        requires
            pow2(low) <= y <= pow2(high),
            pow2(least) > 0,
            pow2(most) > 0,
            pow2(least) * pow2(high) == pow2(298),
            pow2(most) * pow2(low) == pow2(298),
    ;
    lemma_rounded_range(b.negative(), pow2(298) as int, y, least, most);
}

} // verus!

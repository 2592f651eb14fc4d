//! Arithmetic on single-precision numbers, as IEEE 754 has it with rounding to nearest:
//! each operation gives the number nearest to the exact result. Where there is no result
//! the standard asks for a NaN and leaves open which; here it is always [`NAN`].
use crate::rounding::{
    is_nearest, law_nearest_exists, law_rounding_keeps_exact, law_rounding_keeps_order, leads,
    lemma_encoding, lemma_nearest, nearest, round, rounded,
};
use crate::single::{
    law_infinities_bound_all, law_magnitude_increases, magnitude_of, Single, INFINITY,
    NEG_INFINITY, SIGN_BIT, ZERO,
};
use vstd::arithmetic::div_mod::{lemma_div_denominator, lemma_div_multiples_vanish};
use vstd::arithmetic::power2::{
    lemma2_to64, lemma_pow2_adds, lemma_pow2_pos, lemma_pow2_strictly_increases, pow2,
};
use vstd::prelude::*;

verus! {

/// The bits of the NaN that an operation without a result gives.
pub const NAN: u32 = 0x7fc0_0000;

impl Single {
    /// Whether this is one of the infinities.
    pub open spec fn infinite(self) -> bool {
        self.low_bits() == INFINITY
    }

    /// Whether this is a number and not an infinity.
    pub open spec fn finite(self) -> bool {
        self.low_bits() < INFINITY
    }

    /// The magnitude, as a multiple of 2^-149.
    pub open spec fn abs_value(self) -> int {
        magnitude_of(self.low_bits())
    }

    /// The number with the given sign and encoded magnitude.
    pub open spec fn signed(negative: bool, low_bits: u32) -> Single {
        Single { bits: (low_bits + if negative { SIGN_BIT as int } else { 0 }) as u32 }
    }

    /// `self + other`. Infinities of both signs have no sum. A sum of zero is negative
    /// only where both numbers are.
    pub open spec fn sum(self, other: Single) -> Single {
        let total = self.value() + other.value();
        if self.nan() || other.nan() {
            Single { bits: NAN }
        } else if self.infinite() && other.infinite() && self.negative() != other.negative() {
            Single { bits: NAN }
        } else if self.infinite() {
            self
        } else if other.infinite() {
            other
        } else if total == 0 {
            Single::signed(self.negative() && other.negative(), ZERO)
        } else if total < 0 {
            rounded(true, -total, 1)
        } else {
            rounded(false, total, 1)
        }
    }

    /// `self - other`.
    pub open spec fn difference(self, other: Single) -> Single {
        self.sum(other.opposite())
    }

    /// `self * other`. Zero and infinity have no product.
    pub open spec fn product(self, other: Single) -> Single {
        let negative = self.negative() != other.negative();
        if self.nan() || other.nan() {
            Single { bits: NAN }
        } else if self.infinite() || other.infinite() {
            if self.abs_value() == 0 || other.abs_value() == 0 {
                Single { bits: NAN }
            } else {
                Single::signed(negative, INFINITY)
            }
        } else {
            rounded(negative, self.abs_value() * other.abs_value(), pow2(149) as int)
        }
    }

    /// `self / other`. Two zeros have no quotient, nor have two infinities. What is
    /// divided by zero is infinite.
    pub open spec fn quotient(self, other: Single) -> Single {
        let negative = self.negative() != other.negative();
        if self.nan() || other.nan() {
            Single { bits: NAN }
        } else if self.infinite() {
            if other.infinite() {
                Single { bits: NAN }
            } else {
                Single::signed(negative, INFINITY)
            }
        } else if other.infinite() {
            Single::signed(negative, ZERO)
        } else if other.abs_value() == 0 {
            if self.abs_value() == 0 {
                Single { bits: NAN }
            } else {
                Single::signed(negative, INFINITY)
            }
        } else {
            rounded(negative, self.abs_value() * pow2(149), other.abs_value())
        }
    }

    /// A count as a number.
    pub open spec fn count(n: u32) -> Single {
        rounded(false, n * pow2(149), 1)
    }

    /// The whole part of the number, as far as it is a count: that of a number below one, or
    /// of no number, is zero, and one beyond the greatest count is that count.
    pub open spec fn whole(self) -> u32 {
        let part = self.value() / (pow2(149) as int);
        if self.nan() || part <= 0 {
            0
        } else if part > u32::MAX {
            u32::MAX
        } else {
            part as u32
        }
    }

    /// The whole part of the number, as far as it is a count.
    pub fn to_count(self) -> (r: u32)
        ensures
            r == self.whole(),
    {
        let low: u32 = self.bits % SIGN_BIT;
        proof {
            lemma_zero(self);
            lemma_pow2_pos(149);
        }
        if low > INFINITY {
            return 0;
        }
        if self.bits >= SIGN_BIT {
            proof {
                lemma_negative_whole(self.value());
            }
            return 0;
        }
        let exponent: u32 = low / 0x80_0000;
        let significand: u64 = 0x80_0000 + (low % 0x80_0000) as u64;
        let ghost p = pow2((exponent - 1) as nat) as int;
        if exponent < 127 {
            proof {
                lemma_below_one(self);
            }
            return 0;
        }
        proof {
            lemma_pow2_pos((exponent - 1) as nat);
            assert(self.value() == significand * p);
        }
        if exponent >= 159 {
            proof {
                lemma_large_whole(significand as int, exponent as int);
            }
            return u32::MAX;
        }
        if exponent >= 150 {
            let shift: u32 = exponent - 150;
            proof {
                lemma_scaled_whole(significand as int, exponent as int);
                if shift < 8 {
                    lemma_pow2_strictly_increases(shift as nat, 8);
                }
                lemma2_to64();
                assert(0 < significand * pow2(shift as nat) <= 0xff_ffff * 0x100)
                    by (nonlinear_arith)
                    requires
                        0 < significand <= 0xff_ffff,
                        0 < pow2(shift as nat) <= 0x100,
                ;
                vstd::bits::lemma_u64_shl_is_mul(significand, shift as u64);
            }
            (significand << (shift as u64)) as u32
        } else {
            let shift: u32 = 150 - exponent;
            proof {
                lemma_scaled_whole(significand as int, exponent as int);
                vstd::bits::lemma_u64_shr_is_div(significand, shift as u64);
                lemma_pow2_pos(shift as nat);
                assert(0 <= significand as int / (pow2(shift as nat) as int) <= significand)
                    by (nonlinear_arith)
                    requires
                        significand >= 0,
                        pow2(shift as nat) >= 1,
                ;
            }
            (significand >> (shift as u64)) as u32
        }
    }

    /// The number's leading bits, up to 24 of them, and the power of two by which they
    /// are scaled.
    fn parts(self) -> (r: (u32, u32))
        requires
            !self.nan(),
        ensures
            r.0 < 0x100_0000,
            r.1 <= 254,
            self.low_bits() < INFINITY ==> r.1 <= 253,
            r.1 > 0 ==> r.0 >= 0x80_0000,
            self.low_bits() == r.1 * 0x80_0000 + r.0,
            self.abs_value() == r.0 * pow2(r.1 as nat),
    {
        let low: u32 = self.bits % SIGN_BIT;
        let exponent: u32 = low / 0x80_0000;
        let fraction: u32 = low % 0x80_0000;
        if exponent == 0 {
            proof {
                lemma_encoding(0, fraction as int);
            }
            (fraction, 0)
        } else {
            proof {
                lemma_encoding(exponent - 1, fraction + 0x80_0000);
            }
            (fraction + 0x80_0000, exponent - 1)
        }
    }

    /// The number with the given sign and magnitude.
    fn with_sign(negative: bool, low_bits: u32) -> (r: Single)
        requires
            low_bits < SIGN_BIT,
        ensures
            r == Single::signed(negative, low_bits),
    {
        if negative {
            Single { bits: low_bits + SIGN_BIT }
        } else {
            Single { bits: low_bits }
        }
    }

    /// `self * other`.
    pub fn times(self, other: Single) -> (r: Single)
        ensures
            r == self.product(other),
    {
        if self.is_nan() || other.is_nan() {
            return Single { bits: NAN };
        }
        let negative = (self.bits >= SIGN_BIT) != (other.bits >= SIGN_BIT);
        let (ma, ea) = self.parts();
        let (mb, eb) = other.parts();
        proof {
            lemma_zero(self);
            lemma_zero(other);
        }
        if self.bits % SIGN_BIT == INFINITY || other.bits % SIGN_BIT == INFINITY {
            if self.bits % SIGN_BIT == 0 || other.bits % SIGN_BIT == 0 {
                return Single { bits: NAN };
            }
            return Single::with_sign(negative, INFINITY);
        }
        assert(0 <= ma * mb < 0x100_0000 * 0x100_0000) by (nonlinear_arith)
            requires
                ma < 0x100_0000,
                mb < 0x100_0000,
        ;
        let sig: u128 = ma as u128 * mb as u128;
        let exp: i32 = ea as i32 + eb as i32 - 149;
        let ghost num = self.abs_value() * other.abs_value();
        let ghost den = pow2(149) as int;
        proof {
            let (a, b) = (pow2(ea as nat) as int, pow2(eb as nat) as int);
            lemma_pow2_pos(149);
            lemma_pow2_adds(ea as nat, eb as nat);
            assert((ma * a) * (mb * b) * den == (ma * mb) * (den * (a * b))) by (nonlinear_arith);
            assert(leads(num, den, 149, sig as int, exp as int, false));
        }
        let k = round(sig, exp, false, Ghost(num), Ghost(den), Ghost(149));
        Single::with_sign(negative, k)
    }

    /// `self / other`.
    pub fn over(self, other: Single) -> (r: Single)
        ensures
            r == self.quotient(other),
    {
        if self.is_nan() || other.is_nan() {
            return Single { bits: NAN };
        }
        let negative = (self.bits >= SIGN_BIT) != (other.bits >= SIGN_BIT);
        let (ma, ea) = self.parts();
        let (mb, eb) = other.parts();
        proof {
            lemma_zero(self);
            lemma_zero(other);
        }
        if self.bits % SIGN_BIT == INFINITY {
            if other.bits % SIGN_BIT == INFINITY {
                return Single { bits: NAN };
            }
            return Single::with_sign(negative, INFINITY);
        }
        if other.bits % SIGN_BIT == INFINITY {
            return Single::with_sign(negative, ZERO);
        }
        if other.bits % SIGN_BIT == 0 {
            if self.bits % SIGN_BIT == 0 {
                return Single { bits: NAN };
            }
            return Single::with_sign(negative, INFINITY);
        }
        // 64 bits more than the dividend has leave at least 40 in the quotient
        let dividend: u128 = ma as u128 * 0x1_0000_0000_0000_0000;
        let divisor: u128 = mb as u128;
        let sig: u128 = dividend / divisor;
        let sticky = dividend % divisor != 0;
        let exp: i32 = ea as i32 - eb as i32 + 85;
        let ghost num = self.abs_value() * pow2(149);
        let ghost den = other.abs_value();
        proof {
            lemma_quotient(ma as int, ea as nat, mb as int, eb as nat);
            if sticky {
                assert(ma > 0) by {
                    if ma == 0 {
                        assert(dividend as int % divisor as int == 0) by (nonlinear_arith)
                            requires
                                dividend == 0,
                                divisor > 0,
                        ;
                    }
                }
                assert(sig >= 0x100_0000) by (nonlinear_arith)
                    requires
                        sig as int == dividend as int / divisor as int,
                        dividend >= 0x1_0000_0000_0000_0000,
                        0 < divisor < 0x100_0000,
                ;
            }
        }
        let k = round(sig, exp, sticky, Ghost(num), Ghost(den), Ghost(200));
        Single::with_sign(negative, k)
    }

    /// `self + other`.
    pub fn plus(self, other: Single) -> (r: Single)
        ensures
            r == self.sum(other),
    {
        if self.is_nan() || other.is_nan() {
            return Single { bits: NAN };
        }
        if self.bits % SIGN_BIT == INFINITY {
            if other.bits % SIGN_BIT == INFINITY && self.bits != other.bits {
                return Single { bits: NAN };
            }
            return self;
        }
        if other.bits % SIGN_BIT == INFINITY {
            return other;
        }
        if self.bits % SIGN_BIT >= other.bits % SIGN_BIT {
            self.plus_smaller(other)
        } else {
            other.plus_smaller(self)
        }
    }

    /// `self + other` of finite numbers, where `other` is not of the larger magnitude.
    #[verifier::rlimit(40)]
    #[verifier::spinoff_prover]
    fn plus_smaller(self, other: Single) -> (r: Single)
        requires
            other.low_bits() <= self.low_bits() < INFINITY,
        ensures
            r == self.sum(other),
    {
        let negative = self.bits >= SIGN_BIT;
        let same_sign = negative == (other.bits >= SIGN_BIT);
        let (ma, ea) = self.parts();
        let (mb, eb) = other.parts();
        proof {
            lemma_zero(self);
            lemma_zero(other);
            if other.low_bits() < self.low_bits() {
                law_magnitude_increases(other.low_bits(), self.low_bits());
            }
        }
        assert(ea >= eb);
        let shift: u32 = ea - eb;
        let ghost num = if same_sign {
            self.abs_value() + other.abs_value()
        } else {
            self.abs_value() - other.abs_value()
        };
        if shift > 32 {
            proof {
                lemma_far_apart(ma as int, ea as int, mb as int, eb as int);
                lemma_nearest(self.low_bits(), num, 1);
            }
            return self;
        }
        let mut scaled: u128 = ma as u128;
        let mut left: u32 = shift;
        proof {
            lemma2_to64();
            assert(ma * 1 == ma);
        }
        while left > 0
            invariant
                left <= shift <= 32,
                ma < 0x100_0000,
                scaled == ma * pow2((shift - left) as nat),
                scaled < 0x100_0000 * pow2((shift - left) as nat),
                pow2(32) == 0x1_0000_0000,
            decreases left,
        {
            proof {
                let p = pow2((shift - left) as nat) as int;
                lemma_pow2_adds((shift - left) as nat, 1);
                lemma_pow2_adds((shift - left) as nat, (32 - (shift - left)) as nat);
                lemma_pow2_pos((32 - (shift - left)) as nat);
                lemma2_to64();
                assert(p <= pow2(32)) by (nonlinear_arith)
                    requires
                        p * pow2((32 - (shift - left)) as nat) == pow2(32),
                        pow2((32 - (shift - left)) as nat) >= 1,
                        p >= 0,
                ;
                assert(2 * (ma * p) == ma * (p * 2)) by (nonlinear_arith);
            }
            scaled = 2 * scaled;
            left = left - 1;
        }
        proof {
            if shift < 32 {
                lemma_pow2_strictly_increases(shift as nat, 32);
            }
            assert(scaled < 0x100_0000 * 0x1_0000_0000);
            lemma_pow2_adds(shift as nat, eb as nat);
            let (p, e) = (pow2(shift as nat) as int, pow2(eb as nat) as int);
            assert(ma * (p * e) == (ma * p) * e) by (nonlinear_arith);
            assert((scaled + mb) * e == scaled * e + mb * e) by (nonlinear_arith);
            assert((scaled - mb) * e == scaled * e - mb * e) by (nonlinear_arith);
            lemma_pow2_pos(eb as nat);
            assert(scaled >= mb || same_sign) by (nonlinear_arith)
                requires
                    scaled * e >= mb * e,
                    e > 0,
            ;
        }
        let total: u128 = if same_sign {
            scaled + mb as u128
        } else {
            scaled - mb as u128
        };
        assert(num == total * pow2(eb as nat));
        if total == 0 {
            return Single::with_sign(negative && same_sign, ZERO);
        }
        proof {
            lemma_pow2_pos(eb as nat);
            assert(num > 0) by (nonlinear_arith)
                requires
                    num == total * pow2(eb as nat),
                    total > 0,
                    pow2(eb as nat) > 0,
            ;
            lemma2_to64();
            assert(leads(num, 1, 0, total as int, eb as int, false));
        }
        let k = round(total, eb as i32, false, Ghost(num), Ghost(1), Ghost(0));
        Single::with_sign(negative, k)
    }

    /// `self - other`.
    pub fn minus(self, other: Single) -> (r: Single)
        ensures
            r == self.difference(other),
    {
        self.plus(other.neg())
    }

    /// A count as a number.
    pub fn from_count(n: u32) -> (r: Single)
        ensures
            r == Single::count(n),
    {
        let ghost num = n * pow2(149);
        proof {
            lemma2_to64();
            assert(num * 1 == n * (1 * pow2(149))) by (nonlinear_arith)
                requires
                    num == n * pow2(149),
            ;
        }
        let k = round(n as u128, 149, false, Ghost(num), Ghost(1), Ghost(0));
        Single::with_sign(false, k)
    }
}

proof fn lemma_negative_whole(value: int)
    requires
        value <= 0,
    ensures
        value / (pow2(149) as int) <= 0,
{
    lemma_pow2_pos(149);
    let unit = pow2(149) as int;
    assert(value / unit <= 0) by (nonlinear_arith)
        requires
            value <= 0,
            unit > 0,
    ;
}

/// A number with a small exponent field is below one.
proof fn lemma_below_one(x: Single)
    requires
        !x.negative(),
        x.low_bits() < 0x3f80_0000,
    ensures
        x.value() / (pow2(149) as int) == 0,
{
    let (one, unit) = (0x3f80_0000int, pow2(149) as int);
    lemma2_to64();
    lemma_encoding(126, 0x80_0000);
    lemma_pow2_adds(126, 23);
    lemma_zero(x);
    law_magnitude_increases(x.low_bits(), one);
    assert(magnitude_of(one) == unit);
    assert(x.value() / unit == 0) by (nonlinear_arith)
        requires
            0 <= x.value() < unit,
    ;
}

/// The whole part of a number from one on, by its significand and exponent field.
proof fn lemma_scaled_whole(significand: int, exponent: int)
    requires
        0 <= significand,
        1 <= exponent,
    ensures
        ({
            let part = significand * pow2((exponent - 1) as nat) / (pow2(149) as int);
            &&& exponent >= 150 ==> part == significand * pow2((exponent - 150) as nat)
            &&& exponent < 150 ==> part == significand / (pow2((150 - exponent) as nat) as int)
        }),
{
    let (p, unit) = (pow2((exponent - 1) as nat) as int, pow2(149) as int);
    lemma_pow2_pos((exponent - 1) as nat);
    lemma_pow2_pos(149);
    if exponent >= 150 {
        let q = pow2((exponent - 150) as nat) as int;
        lemma_pow2_adds((exponent - 150) as nat, 149);
        assert(significand * p == unit * (significand * q)) by (nonlinear_arith)
            requires
                p == q * unit,
        ;
        lemma_div_multiples_vanish(significand * q, unit);
    } else {
        let q = pow2((150 - exponent) as nat) as int;
        lemma_pow2_pos((150 - exponent) as nat);
        lemma_pow2_adds((exponent - 1) as nat, (150 - exponent) as nat);
        assert(significand * p >= 0) by (nonlinear_arith)
            requires
                significand >= 0,
                p > 0,
        ;
        lemma_div_denominator(significand * p, p, q);
        lemma_div_multiples_vanish(significand, p);
        assert(p * significand == significand * p) by (nonlinear_arith);
    }
}

/// A number with a large exponent field is beyond every count.
proof fn lemma_large_whole(significand: int, exponent: int)
    requires
        0x80_0000 <= significand,
        159 <= exponent,
    ensures
        significand * pow2((exponent - 1) as nat) / (pow2(149) as int) > u32::MAX,
{
    lemma_scaled_whole(significand, exponent);
    lemma2_to64();
    if exponent > 159 {
        lemma_pow2_strictly_increases(9, (exponent - 150) as nat);
    }
    let q = pow2((exponent - 150) as nat) as int;
    assert(significand * q >= 0x80_0000 * 0x200) by (nonlinear_arith)
        requires
            significand >= 0x80_0000,
            q >= 0x200,
    ;
}

/// The leading bits of a quotient.
proof fn lemma_quotient(ma: int, ea: nat, mb: int, eb: nat)
    requires
        0 <= ma < 0x100_0000,
        0 < mb < 0x100_0000,
        eb <= 254,
    ensures
        ({
            let dividend = ma * 0x1_0000_0000_0000_0000;
            leads(
                (ma * pow2(ea)) * pow2(149),
                mb * pow2(eb),
                200,
                dividend / mb,
                ea - eb + 85,
                dividend % mb != 0,
            )
        }),
{
    let dividend = ma * 0x1_0000_0000_0000_0000;
    let sig = dividend / mb;
    let rest = dividend % mb;
    lemma2_to64();
    let e = (ea + 285) as nat;
    let p = pow2(e) as int;
    lemma_pow2_pos(e);
    // both sides are multiples of p
    let num = (ma * pow2(ea)) * pow2(149);
    let den = mb * pow2(eb);
    lemma_pow2_adds(ea, 149);
    lemma_pow2_adds(ea + 149, 200);
    lemma_pow2_adds(e, 64);
    assert(num * pow2(200) == ma * (p * 0x1_0000_0000_0000_0000)) by (nonlinear_arith)
        requires
            num == (ma * pow2(ea)) * pow2(149),
            pow2(ea) * pow2(149) * pow2(200) == p * 0x1_0000_0000_0000_0000,
    ;
    let weight = den * pow2((ea - eb + 285) as nat);
    lemma_pow2_adds(eb, (ea - eb + 285) as nat);
    assert(weight == mb * p) by (nonlinear_arith)
        requires
            weight == (mb * pow2(eb)) * pow2((ea - eb + 285) as nat),
            pow2(eb) * pow2((ea - eb + 285) as nat) == p,
    ;
    assert(dividend == mb * sig + rest && 0 <= rest < mb) by (nonlinear_arith)
        requires
            sig == dividend / mb,
            rest == dividend % mb,
            mb > 0,
    ;
    assert(ma * (p * 0x1_0000_0000_0000_0000) == sig * weight + rest * p) by (nonlinear_arith)
        requires
            dividend == ma * 0x1_0000_0000_0000_0000,
            dividend == mb * sig + rest,
            weight == mb * p,
    ;
    assert((sig + 1) * weight == sig * weight + mb * p) by (nonlinear_arith)
        requires
            weight == mb * p,
    ;
    assert(rest * p < mb * p && (rest > 0 ==> rest * p > 0) && (rest == 0 ==> rest * p == 0))
        by (nonlinear_arith)
        requires
            0 <= rest < mb,
            p > 0,
    ;
}

/// A number does not change by one that is small beside it.
proof fn lemma_far_apart(ma: int, ea: int, mb: int, eb: int)
    requires
        0x80_0000 <= ma < 0x100_0000,
        0 <= mb < 0x100_0000,
        0 <= eb,
        eb + 32 < ea,
        ea * 0x80_0000 + ma < INFINITY,
    ensures
        ({
            let a = ma * pow2(ea as nat);
            let b = mb * pow2(eb as nat);
            let k = ea * 0x80_0000 + ma;
            is_nearest(k, a + b, 1) && is_nearest(k, a - b, 1)
        }),
{
    let a = ma * pow2(ea as nat);
    let b = mb * pow2(eb as nat);
    let k = ea * 0x80_0000 + ma;
    lemma2_to64();
    // half a step at a, and how far b stays below it
    let half = pow2((ea - 1) as nat) as int;
    lemma_pow2_adds((ea - 1) as nat, 1);
    let tiny = pow2(eb as nat) as int;
    lemma_pow2_pos(eb as nat);
    lemma_pow2_adds(eb as nat, 32);
    lemma_pow2_adds((eb + 32) as nat, (ea - 1 - eb - 32) as nat);
    lemma_pow2_pos((ea - 1 - eb - 32) as nat);
    let gap = pow2((ea - 1 - eb - 32) as nat) as int;
    assert(half >= tiny * 0x1_0000_0000) by (nonlinear_arith)
        requires
            half == (tiny * 0x1_0000_0000) * gap,
            gap >= 1,
            tiny >= 1,
    ;
    assert(0 <= 2 * b < half) by (nonlinear_arith)
        requires
            b == mb * tiny,
            0 <= mb < 0x100_0000,
            tiny >= 1,
            half >= tiny * 0x1_0000_0000,
    ;
    // the neighbours
    lemma_encoding(ea, ma);
    lemma_encoding(ea, ma + 1);
    assert((ma + 1) * (2 * half) == ma * (2 * half) + 2 * half) by (nonlinear_arith);
    if ma > 0x80_0000 {
        lemma_encoding(ea, ma - 1);
        assert((ma - 1) * (2 * half) == ma * (2 * half) - 2 * half) by (nonlinear_arith);
    } else {
        lemma_encoding(ea - 1, 0xff_ffff);
        assert(k - 1 == (ea - 1) * 0x80_0000 + 0xff_ffff);
        assert(0xff_ffff * half == 0x80_0000 * (2 * half) - half) by (nonlinear_arith);
    }
}

pub(crate) proof fn lemma_zero(x: Single)
    ensures
        x.abs_value() >= 0,
        x.abs_value() == 0 <==> x.low_bits() == 0,
{
    if x.low_bits() > 0 {
        law_magnitude_increases(0, x.low_bits());
    }
}

/// The rounded number is a number with the given sign and the nearest magnitude.
pub(crate) proof fn lemma_rounded(negative: bool, num: int, den: int)
    requires
        den > 0,
        num >= 0,
    ensures
        ({
            let r = rounded(negative, num, den);
            &&& is_nearest(nearest(num, den), num, den)
            &&& !r.nan()
            &&& r.negative() == negative
            &&& r.low_bits() == nearest(num, den)
            &&& r.value() == if negative {
                -magnitude_of(nearest(num, den))
            } else {
                magnitude_of(nearest(num, den))
            }
            &&& magnitude_of(nearest(num, den)) >= 0
        }),
{
    law_nearest_exists(num, den);
    lemma_zero(rounded(negative, num, den));
}

/// What an exact sum, as a multiple of 2^-149, rounds to.
spec fn rounded_total(total: int) -> int {
    if total < 0 {
        -magnitude_of(nearest(-total, 1))
    } else {
        magnitude_of(nearest(total, 1))
    }
}

proof fn lemma_rounded_total_keeps_order(a: int, b: int)
    requires
        a <= b,
    ensures
        rounded_total(a) <= rounded_total(b),
        rounded_total(0) == 0,
{
    lemma_rounded(a < 0, if a < 0 { -a } else { a }, 1);
    lemma_rounded(b < 0, if b < 0 { -b } else { b }, 1);
    law_rounding_keeps_exact(0, 1);
    if a >= 0 {
        law_rounding_keeps_order(nearest(a, 1), a, 1, nearest(b, 1), b, 1);
        if nearest(a, 1) < nearest(b, 1) {
            law_magnitude_increases(nearest(a, 1), nearest(b, 1));
        }
    } else if b < 0 {
        law_rounding_keeps_order(nearest(-b, 1), -b, 1, nearest(-a, 1), -a, 1);
        if nearest(-b, 1) < nearest(-a, 1) {
            law_magnitude_increases(nearest(-b, 1), nearest(-a, 1));
        }
    }
}

/// The sum of finite numbers, by its value.
proof fn lemma_sum(a: Single, b: Single)
    requires
        a.low_bits() < INFINITY,
        b.low_bits() < INFINITY,
    ensures
        !a.sum(b).nan(),
        a.sum(b).value() == rounded_total(a.value() + b.value()),
{
    let total = a.value() + b.value();
    lemma_rounded_total_keeps_order(0, 0);
    if total != 0 {
        lemma_rounded(total < 0, if total < 0 { -total } else { total }, 1);
    } else {
        lemma_zero(a.sum(b));
    }
}

/// The order of the terms does not matter.
pub proof fn law_sum_commutes(a: Single, b: Single)
    ensures
        a.sum(b) == b.sum(a),
{
}

/// Adding a zero does not change a number, but for the sign of a zero.
pub proof fn law_sum_with_zero(a: Single, zero: Single)
    requires
        !a.nan(),
        zero.low_bits() == 0,
    ensures
        !a.sum(zero).nan(),
        a.sum(zero).value() == a.value(),
        a.value() != 0 ==> a.sum(zero) == a,
{
    lemma_zero(a);
    lemma_zero(zero);
    if !a.infinite() {
        law_rounding_keeps_exact(a.low_bits(), 1);
        lemma_sum(a, zero);
    }
}

/// A finite number and any number have a sum.
pub proof fn law_finite_number_has_sums(a: Single, b: Single)
    requires
        !a.nan(),
        !a.infinite(),
        !b.nan(),
    ensures
        !a.sum(b).nan(),
{
    if !b.infinite() {
        lemma_sum(a, b);
    }
}

/// A number between finite ones is finite.
pub proof fn law_between_finite_is_finite(low: Single, x: Single, high: Single)
    requires
        x.ge(low),
        high.ge(x),
        !low.infinite(),
        !high.infinite(),
    ensures
        !x.infinite(),
{
    lemma_infinite(low);
    lemma_infinite(high);
}

/// A number that is not below the infinity is the infinity.
pub(crate) proof fn lemma_infinite(x: Single)
    requires
        !x.nan(),
    ensures
        x.value() >= (Single { bits: INFINITY }).value() ==> x.bits == INFINITY,
        x.value() <= (Single { bits: NEG_INFINITY }).value() ==> x.bits == NEG_INFINITY,
        (Single { bits: NEG_INFINITY }).value() == -(Single { bits: INFINITY }).value(),
        (Single { bits: INFINITY }).value() > 0,
{
    let top = INFINITY as int;
    law_magnitude_increases(0, top);
    if x.low_bits() < top {
        law_magnitude_increases(x.low_bits(), top);
    }
    lemma_zero(x);
}

/// A sum with a larger term is not smaller.
pub proof fn law_sum_keeps_order(a: Single, b: Single, c: Single)
    requires
        b.ge(a),
        !a.sum(c).nan(),
        !b.sum(c).nan(),
    ensures
        b.sum(c).ge(a.sum(c)),
{
    lemma_infinite(a);
    lemma_infinite(b);
    law_infinities_bound_all(a.sum(c));
    law_infinities_bound_all(b.sum(c));
    if !c.nan() && !c.infinite() {
        if !a.infinite() && !b.infinite() {
            lemma_sum(a, c);
            lemma_sum(b, c);
            lemma_rounded_total_keeps_order(a.value() + c.value(), b.value() + c.value());
        }
    }
}

/// A difference has the sign of the order of its terms.
pub proof fn law_difference_goes_with_order(a: Single, b: Single)
    requires
        a.finite(),
        b.finite(),
    ensures
        !a.difference(b).nan(),
        a.value() >= b.value() ==> a.difference(b).value() >= 0,
        a.value() <= b.value() ==> a.difference(b).value() <= 0,
{
    let total = a.value() - b.value();
    assert(b.opposite().low_bits() == b.low_bits());
    assert(b.opposite().value() == -b.value());
    lemma_sum(a, b.opposite());
    if total >= 0 {
        lemma_rounded_total_keeps_order(0, total);
    }
    if total <= 0 {
        lemma_rounded_total_keeps_order(total, 0);
    }
}

/// A product with a positive finite number is a number, with the other factor's sign.
pub proof fn law_product_keeps_sign(a: Single, b: Single)
    requires
        !a.nan(),
        !b.nan(),
        b.value() > 0,
        !b.infinite(),
    ensures
        !a.product(b).nan(),
        a.product(b).negative() == a.negative(),
        a.value() >= 0 ==> a.product(b).value() >= 0,
        a.value() <= 0 ==> a.product(b).value() <= 0,
{
    lemma_zero(a);
    lemma_zero(b);
    lemma_infinite(a);
    if !a.infinite() {
        let num = a.abs_value() * b.abs_value();
        lemma_pow2_pos(149);
        assert(num >= 0) by (nonlinear_arith)
            requires
                num == a.abs_value() * b.abs_value(),
                a.abs_value() >= 0,
                b.abs_value() >= 0,
        ;
        lemma_rounded(a.negative(), num, pow2(149) as int);
        if a.low_bits() == 0 {
            assert(num == 0) by (nonlinear_arith)
                requires
                    num == a.abs_value() * b.abs_value(),
                    a.abs_value() == 0,
            ;
            law_rounding_keeps_exact(0, pow2(149) as int);
        }
    } else {
        lemma_zero(a.product(b));
    }
}

/// The order of the factors does not matter.
pub proof fn law_product_commutes(a: Single, b: Single)
    ensures
        a.product(b) == b.product(a),
{
    assert(a.abs_value() * b.abs_value() == b.abs_value() * a.abs_value()) by (nonlinear_arith);
}

/// A product of a finite number and one of up to one is no larger than the finite number.
pub proof fn law_product_with_fraction(a: Single, b: Single)
    requires
        a.finite(),
        b.finite(),
        b.abs_value() <= pow2(149),
    ensures
        a.product(b).finite(),
        a.product(b).abs_value() <= a.abs_value(),
{
    let (x, y, unit) = (a.abs_value(), b.abs_value(), pow2(149) as int);
    lemma_zero(a);
    lemma_zero(b);
    lemma_pow2_pos(149);
    let num = x * y;
    assert(0 <= num <= x * unit) by (nonlinear_arith)
        requires
            num == x * y,
            0 <= x,
            0 <= y <= unit,
    ;
    lemma_rounded(a.negative() != b.negative(), num, unit);
    law_rounding_keeps_exact(a.low_bits(), unit);
    assert(num * unit <= x * unit * unit) by (nonlinear_arith)
        requires
            num <= x * unit,
            unit > 0,
    ;
    law_rounding_keeps_order(nearest(num, unit), num, unit, a.low_bits(), x * unit, unit);
    if nearest(num, unit) < a.low_bits() {
        law_magnitude_increases(nearest(num, unit), a.low_bits());
    }
}

/// A product of finite numbers is a number, with a sign where one of the two has one and the
/// other has none.
pub proof fn law_product_sign(a: Single, b: Single)
    requires
        a.finite(),
        b.finite(),
    ensures
        !a.product(b).nan(),
        a.product(b).negative() == (a.negative() != b.negative()),
{
    lemma_zero(a);
    lemma_zero(b);
    lemma_pow2_pos(149);
    let (x, y) = (a.abs_value(), b.abs_value());
    assert(x * y >= 0) by (nonlinear_arith)
        requires
            x >= 0,
            y >= 0,
    ;
    lemma_rounded(a.negative() != b.negative(), x * y, pow2(149) as int);
}

/// A product of a zero and a finite number is a zero.
pub proof fn law_product_with_zero(zero: Single, b: Single)
    requires
        !zero.nan(),
        zero.value() == 0,
        !b.nan(),
        !b.infinite(),
    ensures
        !zero.product(b).nan(),
        zero.product(b).low_bits() == 0,
{
    lemma_zero(zero);
    lemma_pow2_pos(149);
    lemma_infinite(zero);
    let num = zero.abs_value() * b.abs_value();
    assert(num == 0) by (nonlinear_arith)
        requires
            num == zero.abs_value() * b.abs_value(),
            zero.abs_value() == 0,
    ;
    law_rounding_keeps_exact(0, pow2(149) as int);
    lemma_rounded(zero.negative() != b.negative(), num, pow2(149) as int);
}

/// A product with a larger factor is not smaller, where the other factor has no sign.
pub proof fn law_product_keeps_order(a: Single, b: Single, c: Single)
    requires
        b.ge(a),
        !c.negative(),
        !a.product(c).nan(),
        !b.product(c).nan(),
    ensures
        b.product(c).ge(a.product(c)),
{
    lemma_zero(a);
    lemma_zero(b);
    lemma_zero(c);
    lemma_zero(a.product(c));
    lemma_zero(b.product(c));
    lemma_infinite(a);
    lemma_infinite(b);
    law_infinities_bound_all(a.product(c));
    law_infinities_bound_all(b.product(c));
    if !c.infinite() && !a.infinite() && !b.infinite() {
        lemma_pow2_pos(149);
        let den = pow2(149) as int;
        let (x, y, z) = (a.abs_value(), b.abs_value(), c.abs_value());
        let (p, q) = (x * z, y * z);
        assert(p >= 0 && q >= 0 && (x <= y ==> p <= q) && (y <= x ==> q <= p)) by (nonlinear_arith)
            requires
                p == x * z,
                q == y * z,
                x >= 0,
                y >= 0,
                z >= 0,
        ;
        lemma_rounded(a.negative(), p, den);
        lemma_rounded(b.negative(), q, den);
        law_rounding_keeps_exact(0, den);
        assert((x == 0 ==> p == 0) && (y == 0 ==> q == 0)) by (nonlinear_arith)
            requires
                p == x * z,
                q == y * z,
        ;
        if x <= y {
            assert(p * den <= q * den) by (nonlinear_arith)
                requires
                    p <= q,
                    den > 0,
            ;
            law_rounding_keeps_order(nearest(p, den), p, den, nearest(q, den), q, den);
            if nearest(p, den) < nearest(q, den) {
                law_magnitude_increases(nearest(p, den), nearest(q, den));
            }
        }
        if y <= x {
            assert(q * den <= p * den) by (nonlinear_arith)
                requires
                    q <= p,
                    den > 0,
            ;
            law_rounding_keeps_order(nearest(q, den), q, den, nearest(p, den), p, den);
            if nearest(q, den) < nearest(p, den) {
                law_magnitude_increases(nearest(q, den), nearest(p, den));
            }
        }
    }
}

/// A product that is a single-precision number is not rounded.
pub proof fn law_exact_product(a: Single, b: Single, k: int)
    requires
        !a.nan(),
        !b.nan(),
        !a.infinite(),
        !b.infinite(),
        0 <= k < INFINITY,
        a.abs_value() * b.abs_value() == magnitude_of(k) * pow2(149),
    ensures
        a.product(b) == Single::signed(a.negative() != b.negative(), k as u32),
{
    lemma_pow2_pos(149);
    law_rounding_keeps_exact(k, pow2(149) as int);
}

/// Half of a number is exact where the number is an even multiple of the least one.
pub(crate) proof fn lemma_exact_half(x: Single) -> (k: int)
    requires
        !x.nan(),
        !x.infinite(),
        x.value() % 2 == 0,
    ensures
        0 <= k < INFINITY,
        2 * magnitude_of(k) == x.abs_value(),
{
    lemma2_to64();
    lemma_zero(x);
    let low = x.low_bits();
    let (exponent, fraction) = (low / 0x80_0000, low % 0x80_0000);
    if exponent >= 2 {
        let k = low - 0x80_0000;
        assert(k / 0x80_0000 == exponent - 1 && k % 0x80_0000 == fraction);
        lemma_pow2_adds((exponent - 2) as nat, 1);
        let (half, m) = (pow2((exponent - 2) as nat) as int, 0x80_0000 + fraction);
        assert(2 * (m * half) == m * (half * 2)) by (nonlinear_arith);
        k
    } else {
        assert(x.abs_value() == low) by {
            if exponent == 1 {
                assert((0x80_0000 + fraction) * pow2(0) == 0x80_0000 + fraction);
            }
        }
        let k = low / 2;
        assert(magnitude_of(k) == k);
        k
    }
}

/// The encoding of a magnitude of up to 24 bits that is scaled by a power of two.
pub(crate) proof fn lemma_scaled_encoding(n: int, q: int) -> (k: int)
    requires
        0 <= n <= 0x100_0000,
        0 <= q,
    ensures
        0 <= k <= q * 0x80_0000 + n,
        magnitude_of(k) == n * pow2(q as nat),
    decreases q,
{
    if n >= 0x80_0000 || q == 0 {
        lemma_encoding(q, n);
        q * 0x80_0000 + n
    } else {
        let k = lemma_scaled_encoding(2 * n, q - 1);
        lemma2_to64();
        lemma_pow2_adds((q - 1) as nat, 1);
        let (half, whole) = (pow2((q - 1) as nat) as int, pow2(q as nat) as int);
        assert(2 * n * half == n * whole) by (nonlinear_arith)
            requires
                whole == half * 2,
        ;
        k
    }
}

/// A count of up to 2^24 is not rounded.
pub proof fn law_small_count_is_exact(n: u32)
    requires
        n <= 0x100_0000,
    ensures
        Single::count(n).value() == n * pow2(149),
{
    let k = lemma_scaled_encoding(n as int, 149);
    law_rounding_keeps_exact(k, 1);
    lemma_pow2_pos(149);
    assert(n * pow2(149) >= 0) by (nonlinear_arith);
    lemma_rounded(false, n * pow2(149), 1);
}

/// Every count is finite, and none but that of nothing is below one.
pub proof fn law_count_is_finite(n: u32)
    ensures
        !Single::count(n).nan(),
        !Single::count(n).infinite(),
        !Single::count(n).negative(),
        n >= 1 ==> Single::count(n).value() >= pow2(149),
        n >= 1 ==> Single::count(n).low_bits() >= 0x80_0000,
        Single::count(n).low_bits() <= 0x4f80_0000,
{
    let unit = pow2(149) as int;
    let num = n * unit;
    lemma2_to64();
    lemma_pow2_pos(149);
    assert(0 <= num <= 0x1_0000_0000 * unit && (n >= 1 ==> unit <= num)) by (nonlinear_arith)
        requires
            num == n * unit,
            0 <= n <= 0x1_0000_0000,
            unit > 0,
    ;
    lemma_rounded(false, num, 1);
    let top = 0x4f80_0000int;
    lemma_encoding(158, 0x80_0000);
    lemma_pow2_adds(149, 9);
    assert(magnitude_of(top) == 0x1_0000_0000 * unit) by {
        assert(0x80_0000 * (unit * 0x200) == 0x1_0000_0000 * unit);
        assert(pow2(158) == unit * 0x200);
    }
    law_rounding_keeps_exact(top, 1);
    law_rounding_keeps_order(nearest(num, 1), num, 1, top, magnitude_of(top), 1);
    if n >= 1 {
        let low = 0x3f80_0000int;
        lemma_encoding(126, 0x80_0000);
        lemma_pow2_adds(126, 23);
        assert(magnitude_of(low) == unit);
        law_rounding_keeps_exact(low, 1);
        law_rounding_keeps_order(low, magnitude_of(low), 1, nearest(num, 1), num, 1);
        if low < nearest(num, 1) {
            law_magnitude_increases(low, nearest(num, 1));
        }
    }
}

/// A sum with a number that is less than half of the last bit of the greatest finite number
/// does not overflow.
pub proof fn law_small_term_does_not_overflow(a: Single, b: Single)
    requires
        !a.nan(),
        !b.nan(),
        !b.infinite(),
        2 * a.abs_value() < pow2(253),
    ensures
        !a.sum(b).nan(),
        !a.sum(b).infinite(),
{
    let top = INFINITY as int;
    lemma_encoding(253, 0xff_ffff);
    lemma_encoding(253, 0x100_0000);
    lemma_pow2_pos(253);
    let step = pow2(253) as int;
    assert(0x100_0000 * step == 0xff_ffff * step + step) by (nonlinear_arith);
    assert(magnitude_of(top) == magnitude_of(top - 1) + step);
    lemma_zero(a);
    lemma_zero(b);
    if a.infinite() {
        assert(magnitude_of(top) >= step);
        assert(false);
    }
    if b.low_bits() < top - 1 {
        law_magnitude_increases(b.low_bits(), top - 1);
    }
    let total = a.value() + b.value();
    if total != 0 {
        let num = if total < 0 { -total } else { total };
        lemma_rounded(total < 0, num, 1);
    }
}

/// A factor with the other sign gives the product with the other sign.
pub proof fn law_product_with_opposite(a: Single, b: Single)
    ensures
        a.product(b.opposite()).nan() == a.product(b).nan(),
        !a.product(b).nan() ==> a.product(b.opposite()).value() == -a.product(b).value(),
{
    lemma_zero(a);
    lemma_zero(b);
    assert(b.opposite().low_bits() == b.low_bits());
    if !a.nan() && !b.nan() && !a.infinite() && !b.infinite() {
        let num = a.abs_value() * b.abs_value();
        assert(num >= 0) by (nonlinear_arith)
            requires
                num == a.abs_value() * b.abs_value(),
                a.abs_value() >= 0,
                b.abs_value() >= 0,
        ;
        lemma_pow2_pos(149);
        lemma_rounded(a.negative() != b.negative(), num, pow2(149) as int);
        lemma_rounded(a.negative() == b.negative(), num, pow2(149) as int);
    }
}

/// A quotient has a sign where one of the two numbers has one and the other has none.
pub proof fn law_quotient_sign(a: Single, b: Single)
    requires
        !a.quotient(b).nan(),
    ensures
        a.quotient(b).negative() == (a.negative() != b.negative()),
{
    lemma_zero(a);
    lemma_zero(b);
    if !a.infinite() && !b.infinite() && b.abs_value() != 0 {
        let num = a.abs_value() * pow2(149);
        lemma_pow2_pos(149);
        assert(num >= 0) by (nonlinear_arith)
            requires
                num == a.abs_value() * pow2(149),
                a.abs_value() >= 0,
                pow2(149) > 0,
        ;
        lemma_rounded(a.negative() != b.negative(), num, b.abs_value());
    }
}

/// `value`, or its opposite.
pub open spec fn flipped(value: int, flip: bool) -> int {
    if flip {
        -value
    } else {
        value
    }
}

/// Numbers of the same magnitude are encoded alike, but for their signs.
pub(crate) proof fn lemma_same_magnitude(a: Single, b: Single)
    requires
        a.value() == b.value() || a.value() == -b.value(),
    ensures
        a.low_bits() == b.low_bits(),
        a.abs_value() == b.abs_value(),
{
    lemma_zero(a);
    lemma_zero(b);
    if a.low_bits() < b.low_bits() {
        law_magnitude_increases(a.low_bits(), b.low_bits());
    } else if b.low_bits() < a.low_bits() {
        law_magnitude_increases(b.low_bits(), a.low_bits());
    }
}

/// The sum goes by the values of its terms, and terms with the other signs have the sum with
/// the other sign. Only the sign of a zero may differ.
pub proof fn law_sum_goes_by_values(a: Single, b: Single, c: Single, d: Single, flip: bool)
    requires
        !a.nan(),
        !b.nan(),
        !c.nan(),
        !d.nan(),
        c.value() == flipped(a.value(), flip),
        d.value() == flipped(b.value(), flip),
    ensures
        c.sum(d).nan() == a.sum(b).nan(),
        !a.sum(b).nan() ==> c.sum(d).value() == flipped(a.sum(b).value(), flip),
{
    lemma_same_magnitude(a, c);
    lemma_same_magnitude(b, d);
    lemma_infinite(a);
    lemma_infinite(b);
    lemma_infinite(c);
    lemma_infinite(d);
    if a.finite() && b.finite() {
        lemma_sum(a, b);
        lemma_sum(c, d);
        lemma_rounded_total_keeps_order(0, 0);
    }
}

/// The product goes by the values of its factors, and a factor with the other sign gives the
/// product with the other sign. Only the sign of a zero may differ.
pub proof fn law_product_goes_by_values(
    a: Single,
    b: Single,
    c: Single,
    d: Single,
    flip_a: bool,
    flip_b: bool,
)
    requires
        !a.nan(),
        !b.nan(),
        !c.nan(),
        !d.nan(),
        c.value() == flipped(a.value(), flip_a),
        d.value() == flipped(b.value(), flip_b),
    ensures
        c.product(d).nan() == a.product(b).nan(),
        !a.product(b).nan() ==> c.product(d).value() == flipped(
            a.product(b).value(),
            flip_a != flip_b,
        ),
{
    lemma_same_magnitude(a, c);
    lemma_same_magnitude(b, d);
    lemma_zero(a);
    lemma_zero(b);
    lemma_zero(c);
    lemma_zero(d);
    if a.finite() && b.finite() {
        let num = a.abs_value() * b.abs_value();
        lemma_pow2_pos(149);
        assert(num >= 0 && (a.abs_value() == 0 || b.abs_value() == 0 ==> num == 0))
            by (nonlinear_arith)
            requires
                num == a.abs_value() * b.abs_value(),
                a.abs_value() >= 0,
                b.abs_value() >= 0,
        ;
        if num == 0 {
            law_rounding_keeps_exact(0, pow2(149) as int);
            assert(magnitude_of(0) * pow2(149) == 0) by (nonlinear_arith)
                requires
                    magnitude_of(0) == 0,
            ;
        }
        lemma_rounded(a.negative() != b.negative(), num, pow2(149) as int);
        lemma_rounded(c.negative() != d.negative(), num, pow2(149) as int);
    }
}

/// A divisor with the other sign gives the quotient with the other sign.
pub proof fn law_quotient_by_opposite(a: Single, b: Single)
    ensures
        a.quotient(b.opposite()).nan() == a.quotient(b).nan(),
        !a.quotient(b).nan() ==> a.quotient(b.opposite()).value() == -a.quotient(b).value(),
{
    lemma_zero(a);
    lemma_zero(b);
    assert(b.opposite().low_bits() == b.low_bits());
    if a.finite() && b.finite() && b.abs_value() != 0 {
        let num = a.abs_value() * pow2(149);
        lemma_pow2_pos(149);
        assert(num >= 0) by (nonlinear_arith)
            requires
                num == a.abs_value() * pow2(149),
                a.abs_value() >= 0,
                pow2(149) > 0,
        ;
        lemma_rounded(a.negative() != b.negative(), num, b.abs_value());
        lemma_rounded(a.negative() == b.negative(), num, b.abs_value());
    }
}

} // verus!

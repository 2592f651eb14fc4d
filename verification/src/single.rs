//! IEEE 754 single-precision numbers, held by their bit patterns.
//!
//! The numbers that the page and the engine pass around are single-precision ones. A
//! [`Single`] holds one as the 32 bits of its binary32 encoding: a sign bit, eight
//! exponent bits and 23 fraction bits. This module has their order; the module
//! `arithmetic` has their arithmetic. Both are integer work on the bits.
use vstd::arithmetic::power2::{
    lemma2_to64, lemma_pow2_adds, lemma_pow2_pos, lemma_pow2_strictly_increases, pow2,
};
use vstd::prelude::*;

verus! {

/// The weight of the sign bit.
pub const SIGN_BIT: u32 = 0x8000_0000;

/// The bits of positive infinity. A larger magnitude encodes a NaN.
pub const INFINITY: u32 = 0x7f80_0000;

/// The bits of negative infinity.
pub const NEG_INFINITY: u32 = 0xff80_0000;

/// The bits of positive zero.
pub const ZERO: u32 = 0;

/// A single-precision number. Two of them are equal under `==` when their bits are.
#[derive(Clone, Copy, PartialEq, Eq, Structural, Debug)]
pub struct Single {
    pub bits: u32,
}

/// What the lower 31 bits of an encoding stand for, as a multiple of 2^-149, the
/// least positive single-precision number. With a zero exponent field the fraction
/// bits are that multiple; otherwise an implied leading one stands before them and
/// the exponent field scales them. Infinity comes out as the number that
/// would follow the largest finite one.
pub open spec fn magnitude_of(low_bits: int) -> int {
    let exponent = low_bits / 0x80_0000;
    let fraction = low_bits % 0x80_0000;
    if exponent == 0 {
        fraction
    } else {
        (0x80_0000 + fraction) * pow2((exponent - 1) as nat)
    }
}

/// A larger encoding stands for a larger magnitude.
pub proof fn law_magnitude_increases(a: int, b: int)
    requires
        0 <= a < b,
    ensures
        magnitude_of(a) < magnitude_of(b),
{
    let (ea, fa) = (a / 0x80_0000, a % 0x80_0000);
    let (eb, fb) = (b / 0x80_0000, b % 0x80_0000);
    assert(a == ea * 0x80_0000 + fa && b == eb * 0x80_0000 + fb);
    assert(0 <= ea <= eb);
    lemma2_to64();
    if ea == 0 && eb > 0 {
        let scale = pow2((eb - 1) as nat) as int;
        lemma_pow2_pos((eb - 1) as nat);
        assert((0x80_0000 + fb) * scale >= 0x80_0000) by (nonlinear_arith)
            requires
                fb >= 0,
                scale >= 1,
        ;
    } else if ea == eb && ea > 0 {
        let scale = pow2((ea - 1) as nat) as int;
        lemma_pow2_pos((ea - 1) as nat);
        assert((0x80_0000 + fa) * scale < (0x80_0000 + fb) * scale) by (nonlinear_arith)
            requires
                fa < fb,
                scale >= 1,
        ;
    } else if 0 < ea && ea < eb {
        let low = pow2((ea - 1) as nat) as int;
        let high = pow2((eb - 1) as nat) as int;
        lemma_pow2_pos((ea - 1) as nat);
        lemma_pow2_adds((ea - 1) as nat, 1);
        assert(2 * low <= high) by {
            if ea < eb - 1 {
                lemma_pow2_strictly_increases(ea as nat, (eb - 1) as nat);
            }
        }
        assert((0x80_0000 + fa) * low < (0x80_0000 + fb) * high) by (nonlinear_arith)
            requires
                0 <= fa < 0x80_0000,
                0 <= fb,
                low >= 1,
                2 * low <= high,
        ;
    }
}

impl Single {
    /// Whether the sign bit is set.
    pub open spec fn negative(self) -> bool {
        self.bits >= SIGN_BIT
    }

    /// The bits without the sign bit.
    pub open spec fn low_bits(self) -> int {
        (self.bits % SIGN_BIT) as int
    }

    /// Whether this encodes no number.
    pub open spec fn nan(self) -> bool {
        self.low_bits() > INFINITY
    }

    /// The number as a multiple of 2^-149. Both zeros are 0, and an infinity lies
    /// beyond every finite number. It means nothing of a NaN.
    pub open spec fn value(self) -> int {
        if self.negative() {
            -magnitude_of(self.low_bits())
        } else {
            magnitude_of(self.low_bits())
        }
    }

    /// `self < other` as IEEE 754 has it: false where either is a NaN.
    pub open spec fn lt(self, other: Single) -> bool {
        !self.nan() && !other.nan() && self.value() < other.value()
    }

    /// `self >= other` as IEEE 754 has it: false where either is a NaN.
    pub open spec fn ge(self, other: Single) -> bool {
        !self.nan() && !other.nan() && self.value() >= other.value()
    }

    /// The same number with its sign bit cleared.
    pub open spec fn magnitude(self) -> Single {
        Single { bits: self.low_bits() as u32 }
    }

    /// The same number with its sign bit turned over.
    pub open spec fn opposite(self) -> Single {
        if self.negative() {
            Single { bits: (self.bits - SIGN_BIT) as u32 }
        } else {
            Single { bits: (self.bits + SIGN_BIT) as u32 }
        }
    }

    /// `self` where it lies between `low` and `high`, else the bound that it
    /// passes. A NaN passes neither.
    pub open spec fn limited(self, low: Single, high: Single) -> Single {
        if self.lt(low) {
            low
        } else if high.lt(self) {
            high
        } else {
            self
        }
    }

    /// An integer that orders the encodings as `value` orders the numbers.
    closed spec fn rank(self) -> int {
        if self.negative() {
            -self.low_bits()
        } else {
            self.low_bits()
        }
    }

    proof fn lemma_rank(self, other: Single)
        ensures
            (self.rank() < other.rank()) == (self.value() < other.value()),
    {
        let (a, b) = (self.low_bits(), other.low_bits());
        assert(magnitude_of(0) == 0);
        if 0 < a {
            law_magnitude_increases(0, a);
        }
        if 0 < b {
            law_magnitude_increases(0, b);
        }
        if a < b {
            law_magnitude_increases(a, b);
        } else if b < a {
            law_magnitude_increases(b, a);
        }
    }

    /// The number that the bits encode.
    pub fn from_bits(bits: u32) -> (r: Single)
        ensures
            r.bits == bits,
    {
        Single { bits }
    }

    /// The bits of the number.
    pub fn to_bits(self) -> (r: u32)
        ensures
            r == self.bits,
    {
        self.bits
    }

    /// The number without its sign.
    pub fn abs(self) -> (r: Single)
        ensures
            r == self.magnitude(),
            !self.nan() ==> r.value() == if self.value() < 0 { -self.value() } else { self.value() },
    {
        proof {
            if 0 < self.low_bits() {
                law_magnitude_increases(0, self.low_bits());
            }
        }
        Single { bits: self.bits % SIGN_BIT }
    }

    /// The number with the other sign.
    pub fn neg(self) -> (r: Single)
        ensures
            r == self.opposite(),
            r.nan() == self.nan(),
            r.value() == -self.value(),
    {
        if self.bits >= SIGN_BIT {
            Single { bits: self.bits - SIGN_BIT }
        } else {
            Single { bits: self.bits + SIGN_BIT }
        }
    }

    /// Whether this encodes no number.
    pub fn is_nan(self) -> (r: bool)
        ensures
            r == self.nan(),
    {
        self.bits % SIGN_BIT > INFINITY
    }

    fn key(self) -> (r: i64)
        ensures
            r == self.rank(),
    {
        if self.bits >= SIGN_BIT {
            -((self.bits - SIGN_BIT) as i64)
        } else {
            self.bits as i64
        }
    }

    /// Whether `self < other`.
    pub fn is_below(self, other: Single) -> (r: bool)
        ensures
            r == self.lt(other),
    {
        proof {
            self.lemma_rank(other);
        }
        !self.is_nan() && !other.is_nan() && self.key() < other.key()
    }

    /// Whether `self >= other`.
    pub fn is_at_least(self, other: Single) -> (r: bool)
        ensures
            r == self.ge(other),
    {
        proof {
            self.lemma_rank(other);
        }
        !self.is_nan() && !other.is_nan() && self.key() >= other.key()
    }

    /// `self` brought between `low` and `high`. A NaN stays as it is.
    pub fn clamp(self, low: Single, high: Single) -> (r: Single)
        requires
            high.ge(low),
        ensures
            r == self.limited(low, high),
    {
        let mut r = self;
        if r.is_below(low) {
            r = low;
        }
        if high.is_below(r) {
            r = high;
        }
        r
    }
}

/// The number with the other sign.
pub(crate) proof fn lemma_opposite(x: Single)
    ensures
        x.opposite().low_bits() == x.low_bits(),
        x.opposite().value() == -x.value(),
        x.opposite().magnitude() == x.magnitude(),
{
}

/// Clamping gives a number between the bounds, or the NaN that was given.
pub proof fn law_clamp_is_within_bounds(x: Single, low: Single, high: Single)
    requires
        high.ge(low),
    ensures
        x.nan() ==> x.limited(low, high) == x,
        !x.nan() ==> x.limited(low, high).ge(low) && high.ge(x.limited(low, high)),
{
}

/// Clamping what was clamped changes nothing.
pub proof fn law_clamp_is_idempotent(x: Single, low: Single, high: Single)
    requires
        high.ge(low),
    ensures
        x.limited(low, high).limited(low, high) == x.limited(low, high),
{
}

/// The number with a positive exponent field, from its exponent and fraction fields.
pub proof fn law_value_of_fields(x: Single, exponent: int, fraction: int)
    requires
        !x.negative(),
        x.bits == exponent * 0x80_0000 + fraction,
        1 <= exponent,
        0 <= fraction < 0x80_0000,
    ensures
        x.value() == (0x80_0000 + fraction) * pow2((exponent - 1) as nat),
        !x.nan() <==> exponent < 255 || (exponent == 255 && fraction == 0),
{
    assert(x.low_bits() / 0x80_0000 == exponent);
    assert(x.low_bits() % 0x80_0000 == fraction);
}

/// Numbers without a sign are ordered as their bits are.
pub proof fn law_unsigned_order_is_order_of_bits(a: Single, b: Single)
    requires
        !a.negative(),
        !b.negative(),
    ensures
        a.value() < b.value() <==> a.bits < b.bits,
        a.value() >= 0,
{
    a.lemma_rank(b);
    a.lemma_rank(Single { bits: ZERO });
}

/// Every number lies between the two infinities.
pub proof fn law_infinities_bound_all(x: Single)
    requires
        !x.nan(),
    ensures
        x.ge(Single { bits: NEG_INFINITY }),
        (Single { bits: INFINITY }).ge(x),
{
    x.lemma_rank(Single { bits: NEG_INFINITY });
    (Single { bits: INFINITY }).lemma_rank(x);
}

} // verus!

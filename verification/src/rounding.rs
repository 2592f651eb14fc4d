//! Rounding to the nearest single-precision number.
//!
//! An exact magnitude is given as a fraction `num / den` of the unit 2^-149. Its nearest
//! single-precision number is the one whose magnitude is closest; of two that are as
//! close, the one with the even encoding. Infinity takes part as the number that would
//! follow the largest finite one, so that a magnitude rounds to it exactly where IEEE 754
//! lets it overflow.
use crate::single::{law_magnitude_increases, magnitude_of, Single, INFINITY, SIGN_BIT};
use vstd::arithmetic::power2::{lemma2_to64, lemma_pow2_adds, lemma_pow2_pos, pow2};
use vstd::prelude::*;

verus! {

/// `k` encodes the magnitude that `num / den` rounds to: no lower one is closer, and no
/// higher one.
pub open spec fn is_nearest(k: int, num: int, den: int) -> bool {
    &&& 0 <= k <= INFINITY
    &&& k > 0 ==> {
        let middle = den * (magnitude_of(k - 1) + magnitude_of(k));
        middle < 2 * num || (middle == 2 * num && k % 2 == 0)
    }
    &&& k < INFINITY ==> {
        let middle = den * (magnitude_of(k) + magnitude_of(k + 1));
        2 * num < middle || (2 * num == middle && k % 2 == 0)
    }
}

/// The encoding of the magnitude that `num / den` rounds to.
pub open spec fn nearest(num: int, den: int) -> int {
    choose|k: int| is_nearest(k, num, den)
}

/// The number with the given sign whose magnitude is `num / den`, rounded.
pub open spec fn rounded(negative: bool, num: int, den: int) -> Single {
    Single { bits: (nearest(num, den) + if negative { SIGN_BIT as int } else { 0 }) as u32 }
}

/// A magnitude rounds to one encoding only.
pub proof fn law_nearest_is_unique(k: int, other: int, num: int, den: int)
    requires
        den > 0,
        is_nearest(k, num, den),
        is_nearest(other, num, den),
    ensures
        k == other,
{
    if k < other {
        lemma_nearest_is_not_below(k, other, num, den);
    } else if other < k {
        lemma_nearest_is_not_below(other, k, num, den);
    }
}

proof fn lemma_nearest_is_not_below(low: int, high: int, num: int, den: int)
    requires
        den > 0,
        is_nearest(low, num, den),
        is_nearest(high, num, den),
    ensures
        low >= high,
{
    if low < high {
        law_magnitude_increases(low, low + 1);
        law_magnitude_increases(high - 1, high);
        if low + 1 < high {
            law_magnitude_increases(low, high - 1);
            law_magnitude_increases(low + 1, high);
        }
        let a = magnitude_of(low) + magnitude_of(low + 1);
        let b = magnitude_of(high - 1) + magnitude_of(high);
        assert(a <= b);
        assert(den * a <= den * b) by (nonlinear_arith)
            requires
                den > 0,
                a <= b,
        ;
        if low + 1 < high {
            assert(den * a < den * b) by (nonlinear_arith)
                requires
                    den > 0,
                    a < b,
            ;
        }
    }
}

/// Every magnitude rounds to some encoding.
pub proof fn law_nearest_exists(num: int, den: int)
    requires
        den > 0,
        num >= 0,
    ensures
        is_nearest(nearest(num, den), num, den),
{
    lemma_nearest_from(0, num, den);
}

/// If no encoding below `k` is too high for the magnitude, one from `k` on is its nearest.
proof fn lemma_nearest_from(k: int, num: int, den: int)
    requires
        den > 0,
        0 <= k <= INFINITY,
        k > 0 ==> {
            let middle = den * (magnitude_of(k - 1) + magnitude_of(k));
            middle < 2 * num || (middle == 2 * num && k % 2 == 0)
        },
    ensures
        exists|j: int| is_nearest(j, num, den),
    decreases INFINITY - k,
{
    if !is_nearest(k, num, den) {
        lemma_nearest_from(k + 1, num, den);
    }
}

/// A larger magnitude does not round to a smaller one.
pub proof fn law_rounding_keeps_order(
    low: int,
    low_num: int,
    low_den: int,
    high: int,
    high_num: int,
    high_den: int,
)
    requires
        low_den > 0,
        high_den > 0,
        low_num * high_den <= high_num * low_den,
        is_nearest(low, low_num, low_den),
        is_nearest(high, high_num, high_den),
    ensures
        low <= high,
{
    if high < low {
        law_magnitude_increases(high, high + 1);
        law_magnitude_increases(low - 1, low);
        if high + 1 < low {
            law_magnitude_increases(high, low - 1);
            law_magnitude_increases(high + 1, low);
        }
        let a = magnitude_of(high) + magnitude_of(high + 1);
        let b = magnitude_of(low - 1) + magnitude_of(low);
        // high_num / high_den <= a / 2 <= b / 2 <= low_num / low_den
        assert(2 * high_num <= high_den * a && low_den * b <= 2 * low_num);
        assert(2 * high_num * low_den <= high_den * a * low_den) by (nonlinear_arith)
            requires
                2 * high_num <= high_den * a,
                low_den > 0,
        ;
        assert(low_den * b * high_den <= 2 * low_num * high_den) by (nonlinear_arith)
            requires
                low_den * b <= 2 * low_num,
                high_den > 0,
        ;
        assert(high_den * a * low_den <= low_den * b * high_den) by (nonlinear_arith)
            requires
                a <= b,
                low_den > 0,
                high_den > 0,
        ;
        assert(2 * low_num * high_den <= 2 * high_num * low_den) by (nonlinear_arith)
            requires
                low_num * high_den <= high_num * low_den,
        ;
        // so all are equal
        assert(2 * high_num * low_den == high_den * a * low_den);
        assert(2 * high_num == high_den * a) by (nonlinear_arith)
            requires
                2 * high_num * low_den == high_den * a * low_den,
                low_den > 0,
        ;
        assert(low_den * b * high_den == 2 * low_num * high_den);
        assert(low_den * b == 2 * low_num) by (nonlinear_arith)
            requires
                low_den * b * high_den == 2 * low_num * high_den,
                high_den > 0,
        ;
        assert(a == b) by (nonlinear_arith)
            requires
                a <= b,
                high_den * a * low_den == low_den * b * high_den,
                low_den > 0,
                high_den > 0,
        ;
        assert(high + 1 == low);
    }
}

/// A magnitude that is a single-precision one rounds to itself.
pub proof fn law_rounding_keeps_exact(k: int, den: int)
    requires
        den > 0,
        0 <= k <= INFINITY,
    ensures
        is_nearest(k, magnitude_of(k) * den, den),
        nearest(magnitude_of(k) * den, den) == k,
{
    let m = magnitude_of(k);
    if k > 0 {
        law_magnitude_increases(k - 1, k);
        let below = magnitude_of(k - 1);
        assert(den * (below + m) < 2 * (m * den)) by (nonlinear_arith)
            requires
                den > 0,
                below < m,
        ;
    }
    law_magnitude_increases(k, k + 1);
    let above = magnitude_of(k + 1);
    assert(2 * (m * den) < den * (m + above)) by (nonlinear_arith)
        requires
            den > 0,
            m < above,
    ;
    assert(is_nearest(k, m * den, den));
    lemma_nearest(k, m * den, den);
}

pub(crate) proof fn lemma_nearest(k: int, num: int, den: int)
    requires
        den > 0,
        is_nearest(k, num, den),
    ensures
        nearest(num, den) == k,
{
    law_nearest_is_unique(k, nearest(num, den), num, den);
}

/// What is known of a magnitude `num / den` from its leading bits: `sig` of them, in
/// units of two to the `exp`, and whether anything follows them. Both sides are scaled by
/// two to the `bias`, so that `exp` may be negative.
pub(crate) open spec fn leads(
    num: int,
    den: int,
    bias: nat,
    sig: int,
    exp: int,
    sticky: bool,
) -> bool {
    let weight = den * pow2((exp + bias) as nat);
    let scaled = num * pow2(bias);
    &&& exp + bias >= 0
    &&& if sticky {
        sig * weight < scaled < (sig + 1) * weight
    } else {
        scaled == sig * weight
    }
}

/// Dropping the last of the leading bits.
proof fn lemma_halve(num: int, den: int, bias: nat, sig: int, exp: int, sticky: bool)
    requires
        den > 0,
        sig >= 0,
        leads(num, den, bias, sig, exp, sticky),
    ensures
        leads(num, den, bias, sig / 2, exp + 1, sticky || sig % 2 == 1),
{
    let e = (exp + bias) as nat;
    let w = den * pow2(e);
    let next = den * pow2((exp + 1 + bias) as nat);
    lemma2_to64();
    lemma_pow2_pos(e);
    lemma_pow2_adds(e, 1);
    assert(next == 2 * w) by (nonlinear_arith)
        requires
            w == den * pow2(e),
            next == den * (pow2(e) * 2),
    ;
    assert(w > 0) by (nonlinear_arith)
        requires
            w == den * pow2(e),
            den > 0,
            pow2(e) > 0,
    ;
    let half = sig / 2;
    assert(half * next == 2 * half * w && (half + 1) * next == 2 * half * w + 2 * w)
        by (nonlinear_arith)
        requires
            next == 2 * w,
    ;
    assert((sig + 1) * w == sig * w + w) by (nonlinear_arith);
    if sig % 2 == 1 {
        assert(sig * w == 2 * half * w + w) by (nonlinear_arith)
            requires
                sig == 2 * half + 1,
        ;
    } else {
        assert(sig * w == 2 * half * w) by (nonlinear_arith)
            requires
                sig == 2 * half,
        ;
    }
}

/// Adding a zero to leading bits that nothing follows.
proof fn lemma_double(num: int, den: int, bias: nat, sig: int, exp: int)
    requires
        den > 0,
        sig >= 0,
        exp > 0,
        leads(num, den, bias, sig, exp, false),
    ensures
        leads(num, den, bias, 2 * sig, exp - 1, false),
{
    let e = (exp - 1 + bias) as nat;
    lemma2_to64();
    lemma_pow2_adds(e, 1);
    assert(sig * (den * (pow2(e) * 2)) == (2 * sig) * (den * pow2(e))) by (nonlinear_arith);
}

/// The encoding of a magnitude of up to 24 bits.
pub(crate) proof fn lemma_encoding(q: int, m: int)
    requires
        q >= 0,
        0 <= m <= 0x100_0000,
        m >= 0x80_0000 || q == 0,
    ensures
        magnitude_of(q * 0x80_0000 + m) == m * pow2(q as nat),
{
    lemma2_to64();
    let k = q * 0x80_0000 + m;
    let p = pow2(q as nat) as int;
    if m < 0x80_0000 {
        assert(k / 0x80_0000 == 0 && k % 0x80_0000 == m);
        assert(m * p == m) by (nonlinear_arith)
            requires
                p == 1,
        ;
    } else if m < 0x100_0000 {
        assert(k / 0x80_0000 == q + 1 && k % 0x80_0000 == m - 0x80_0000);
    } else {
        assert(k / 0x80_0000 == q + 2 && k % 0x80_0000 == 0);
        lemma_pow2_adds(q as nat, 1);
        assert(m * p == 0x80_0000 * (p * 2)) by (nonlinear_arith)
            requires
                m == 0x100_0000,
        ;
    }
}

/// An encoding past infinity means infinity.
proof fn lemma_overflow(k: int, num: int, den: int)
    requires
        den > 0,
        k > INFINITY,
        den * (magnitude_of(k - 1) + magnitude_of(k)) <= 2 * num,
    ensures
        is_nearest(INFINITY as int, num, den),
{
    let top = INFINITY as int;
    law_magnitude_increases(top - 1, top);
    law_magnitude_increases(top, k);
    if top < k - 1 {
        law_magnitude_increases(top, k - 1);
    }
    let a = magnitude_of(top - 1) + magnitude_of(top);
    let b = magnitude_of(k - 1) + magnitude_of(k);
    assert(den * a < den * b) by (nonlinear_arith)
        requires
            a < b,
            den > 0,
    ;
}

/// Leading bits that nothing follows, up to 24 of them, are the magnitude.
proof fn lemma_exact(num: int, den: int, bias: nat, m: int, q: int)
    requires
        den > 0,
        q >= 0,
        0 <= m < 0x100_0000,
        m >= 0x80_0000 || q == 0,
        leads(num, den, bias, m, q, false),
    ensures
        ({
            let k = q * 0x80_0000 + m;
            is_nearest(if k > INFINITY { INFINITY as int } else { k }, num, den)
        }),
{
    let k = q * 0x80_0000 + m;
    let p = pow2(q as nat) as int;
    let s = pow2(bias) as int;
    lemma_encoding(q, m);
    lemma_pow2_pos(bias);
    lemma_pow2_adds(q as nat, bias);
    assert(num == m * p * den) by (nonlinear_arith)
        requires
            num * s == m * (den * (p * s)),
            s > 0,
    ;
    if k > INFINITY {
        law_magnitude_increases(k - 1, k);
        let below = magnitude_of(k - 1);
        assert(den * (below + m * p) <= 2 * num) by (nonlinear_arith)
            requires
                den > 0,
                below < m * p,
                num == m * p * den,
        ;
        lemma_overflow(k, num, den);
    } else {
        law_rounding_keeps_exact(k, den);
    }
}

/// Rounding off one last bit.
proof fn lemma_round_last(num: int, den: int, bias: nat, m: int, last: int, q: int, sticky: bool)
    requires
        den > 0,
        q >= 0,
        0 <= m < 0x100_0000,
        m >= 0x80_0000 || q == 0,
        last == 0 || last == 1,
        leads(num, den, bias, 2 * m + last, q - 1, sticky),
    ensures
        ({
            let up: int = if last == 1 && (sticky || m % 2 == 1) { 1 } else { 0 };
            let k = q * 0x80_0000 + m + up;
            is_nearest(if k > INFINITY { INFINITY as int } else { k }, num, den)
        }),
{
    lemma2_to64();
    let up: int = if last == 1 && (sticky || m % 2 == 1) { 1 } else { 0 };
    let base = q * 0x80_0000 + m;
    let k = base + up;
    let p = pow2(q as nat) as int;
    let s = pow2(bias) as int;
    lemma_encoding(q, m);
    lemma_encoding(q, m + 1);
    lemma_pow2_pos(q as nat);
    lemma_pow2_pos(bias);
    assert(magnitude_of(base) == m * p && magnitude_of(base + 1) == (m + 1) * p);
    // the weight of the last bit, scaled, is half of den * p * s
    let e = (q - 1 + bias) as nat;
    let w = den * pow2(e);
    lemma_pow2_adds(e, 1);
    lemma_pow2_adds(q as nat, bias);
    assert(2 * w == den * p * s) by (nonlinear_arith)
        requires
            w == den * pow2(e),
            pow2(e) * 2 == p * s,
    ;
    let unit = den * p;
    assert(unit > 0) by (nonlinear_arith)
        requires
            unit == den * p,
            den > 0,
            p > 0,
    ;
    let sig = 2 * m + last;
    // where the magnitude lies between base and base + 1, in units of half a step
    assert(2 * num * s == 2 * (num * s)) by (nonlinear_arith);
    assert(2 * (sig * w) == sig * unit * s) by (nonlinear_arith)
        requires
            2 * w == unit * s,
    ;
    assert(2 * ((sig + 1) * w) == (sig + 1) * unit * s) by (nonlinear_arith)
        requires
            2 * w == unit * s,
    ;
    if sticky {
        assert(sig * unit < 2 * num < (sig + 1) * unit) by (nonlinear_arith)
            requires
                s > 0,
                sig * unit * s < 2 * num * s < (sig + 1) * unit * s,
        ;
    } else {
        assert(2 * num == sig * unit) by (nonlinear_arith)
            requires
                s > 0,
                2 * num * s == sig * unit * s,
        ;
    }
    assert(den * (m * p + (m + 1) * p) == (2 * m + 1) * unit) by (nonlinear_arith)
        requires
            unit == den * p,
    ;
    assert((2 * m + 2) * unit == (2 * m + 1) * unit + unit && (2 * m + 1) * unit == 2 * m * unit
        + unit) by (nonlinear_arith);
    assert(k % 2 == (m + up) % 2);
    // below
    if k > 0 {
        if up == 0 {
            law_magnitude_increases(k - 1, k);
            let below = magnitude_of(k - 1);
            assert(den * (below + m * p) < 2 * m * unit) by (nonlinear_arith)
                requires
                    den > 0,
                    below < m * p,
                    unit == den * p,
            ;
        }
    }
    // above
    if up == 1 {
        law_magnitude_increases(k, k + 1);
        let above = magnitude_of(k + 1);
        assert((2 * m + 2) * unit < den * ((m + 1) * p + above)) by (nonlinear_arith)
            requires
                den > 0,
                (m + 1) * p < above,
                unit == den * p,
        ;
    }
    if k > INFINITY {
        lemma_overflow(k, num, den);
    }
}


/// The encoding of the magnitude `num / den`, rounded, from its leading bits. Where
/// anything follows these, there must be enough of them to round by.
pub(crate) fn round(
    sig: u128,
    exp: i32,
    sticky: bool,
    Ghost(num): Ghost<int>,
    Ghost(den): Ghost<int>,
    Ghost(bias): Ghost<nat>,
) -> (k: u32)
    requires
        den > 0,
        -1000 <= exp <= 1000,
        sticky ==> sig >= 0x100_0000 || exp < 0,
        leads(num, den, bias, sig as int, exp as int, sticky),
    ensures
        is_nearest(k as int, num, den),
        k == nearest(num, den),
{
    let mut sig: u128 = sig;
    let mut exp: i32 = exp;
    let mut sticky = sticky;
    while exp < -1
        invariant
            den > 0,
            -1000 <= exp <= 1000,
            sticky ==> sig >= 0x100_0000 || exp < 0,
            leads(num, den, bias, sig as int, exp as int, sticky),
        decreases -1 - exp,
    {
        proof {
            lemma_halve(num, den, bias, sig as int, exp as int, sticky);
        }
        sticky = sticky || sig % 2 == 1;
        sig = sig / 2;
        exp = exp + 1;
    }
    let ghost start = exp;
    let ghost mut halvings: nat = 0;
    proof {
        lemma2_to64();
        lemma_pow2_adds(64, 64);
    }
    while sig >= 0x200_0000
        invariant
            den > 0,
            -1 <= start <= 1000,
            exp == start + halvings,
            halvings <= 128,
            sig < pow2((128 - halvings) as nat),
            sticky ==> sig >= 0x100_0000 || exp < 0,
            leads(num, den, bias, sig as int, exp as int, sticky),
        decreases sig,
    {
        proof {
            lemma_halve(num, den, bias, sig as int, exp as int, sticky);
            lemma2_to64();
            if halvings >= 128 {
                assert(sig < 1);
            }
            lemma_pow2_adds((127 - halvings) as nat, 1);
            halvings = halvings + 1;
        }
        sticky = sticky || sig % 2 == 1;
        sig = sig / 2;
        exp = exp + 1;
    }
    let k: u64 = if sig >= 0x100_0000 || exp == -1 {
        let m: u64 = (sig / 2) as u64;
        let last: u64 = (sig % 2) as u64;
        proof {
            lemma_round_last(num, den, bias, m as int, last as int, exp + 1, sticky);
        }
        let up: u64 = if last == 1 && (sticky || m % 2 == 1) { 1 } else { 0 };
        (exp + 1) as u64 * 0x80_0000 + m + up
    } else {
        while sig < 0x80_0000 && exp > 0
            invariant
                den > 0,
                0 <= exp <= 2000,
                sig < 0x100_0000,
                leads(num, den, bias, sig as int, exp as int, false),
            decreases exp,
        {
            proof {
                lemma_double(num, den, bias, sig as int, exp as int);
            }
            sig = 2 * sig;
            exp = exp - 1;
        }
        proof {
            lemma_exact(num, den, bias, sig as int, exp as int);
        }
        exp as u64 * 0x80_0000 + sig as u64
    };
    let k: u32 = if k > INFINITY as u64 {
        INFINITY
    } else {
        k as u32
    };
    proof {
        lemma_nearest(k as int, num, den);
    }
    k
}

} // verus!

//! What a hit has of its ray's direction: a direction that is scaled by a power of two gives
//! the same hit, since such a scaling changes exponents only.
use crate::accuracy::LEAST_NORMAL;
use crate::arithmetic::{
    law_product_sign, law_product_with_zero, lemma_infinite, lemma_rounded, lemma_zero,
};
use crate::ray::{
    axes_of, entered_last, entries_alike, entry_axis, entry_time, exit_axis, exit_time,
    exits_alike, hit_face, hit_time, hits, left_first, lemma_same_entry, lemma_same_exit,
    passes_by, point_at, AxisRay, ONE, PARALLEL_LIMIT,
};
use crate::rounding::{is_nearest, lemma_nearest, nearest, rounded};
use crate::single::{
    law_infinities_bound_all, law_unsigned_order_is_order_of_bits, magnitude_of, Single, INFINITY,
    NEG_INFINITY,
};
use crate::vector::Vec3;
use vstd::arithmetic::power2::{lemma_pow2_adds, lemma_pow2_pos, pow2};
use vstd::prelude::*;

verus! {

impl Single {
    /// The number times two to the `power`.
    pub open spec fn scaled(self, power: nat) -> Single {
        if self.low_bits() == 0 {
            self
        } else {
            Single { bits: (self.bits + power * 0x80_0000) as u32 }
        }
    }

    /// Times two to the `power` the number does not overflow, and it is not so small that it
    /// might have been rounded more coarsely than its multiple.
    pub open spec fn scalable(self, power: nat) -> bool {
        LEAST_NORMAL < self.low_bits() && self.low_bits() + power * 0x80_0000 < INFINITY
    }
}

/// A larger exponent is a factor of a power of two.
proof fn lemma_scaled_magnitude(k: int, power: nat)
    requires
        k >= LEAST_NORMAL,
    ensures
        magnitude_of(k + power * 0x80_0000) == magnitude_of(k) * pow2(power),
{
    let (exponent, fraction) = (k / 0x80_0000, k % 0x80_0000);
    let other = k + power * 0x80_0000;
    assert(other / 0x80_0000 == exponent + power && other % 0x80_0000 == fraction);
    lemma_pow2_adds((exponent - 1) as nat, power);
    let (m, p, q) = (0x80_0000 + fraction, pow2((exponent - 1) as nat) as int, pow2(power) as int);
    assert(m * (p * q) == m * p * q) by (nonlinear_arith);
    assert(pow2((exponent + power - 1) as nat) == p * q);
}

/// What a scaled number is.
pub proof fn law_scaled_value(x: Single, power: nat)
    requires
        x.scalable(power),
    ensures
        x.scaled(power).finite(),
        x.scaled(power).negative() == x.negative(),
        x.scaled(power).low_bits() == x.low_bits() + power * 0x80_0000,
        x.scaled(power).abs_value() == x.abs_value() * pow2(power),
        x.scaled(power).value() == x.value() * pow2(power),
{
    lemma_scaled_magnitude(x.low_bits(), power);
    let (m, q) = (x.abs_value(), pow2(power) as int);
    assert((-m) * q == -(m * q)) by (nonlinear_arith);
    assert(x.bits + power * 0x80_0000 <= u32::MAX);
    assert(x.scaled(power).bits == x.bits + power * 0x80_0000);
}

/// A magnitude that is a power of two times another rounds to the scaled encoding.
proof fn lemma_scaled_rounding(
    k: int,
    num: int,
    den: int,
    power: nat,
    other_num: int,
    other_den: int,
)
    requires
        den > 0,
        other_den > 0,
        LEAST_NORMAL < k,
        k + power * 0x80_0000 < INFINITY,
        is_nearest(k, num, den),
        other_num * den == num * other_den * pow2(power),
    ensures
        is_nearest(k + power * 0x80_0000, other_num, other_den),
{
    let q = pow2(power) as int;
    let other = k + power * 0x80_0000;
    lemma_pow2_pos(power);
    lemma_scaled_magnitude(k - 1, power);
    lemma_scaled_magnitude(k, power);
    lemma_scaled_magnitude(k + 1, power);
    assert(other - 1 == k - 1 + power * 0x80_0000 && other + 1 == k + 1 + power * 0x80_0000);
    lemma_scaled_middle(magnitude_of(k - 1) + magnitude_of(k), num, den, q, other_num, other_den);
    lemma_scaled_middle(magnitude_of(k) + magnitude_of(k + 1), num, den, q, other_num, other_den);
    let (a, b, c) = (magnitude_of(k - 1), magnitude_of(k), magnitude_of(k + 1));
    assert((a + b) * q == a * q + b * q && (b + c) * q == b * q + c * q) by (nonlinear_arith);
    assert(other % 2 == k % 2) by {
        let steps = power * 0x40_0000;
        assert(other == k + 2 * steps);
    }
}

proof fn lemma_scaled_middle(
    middle: int,
    num: int,
    den: int,
    q: int,
    other_num: int,
    other_den: int,
)
    requires
        den > 0,
        other_den > 0,
        q > 0,
        other_num * den == num * other_den * q,
    ensures
        den * middle < 2 * num <==> other_den * (middle * q) < 2 * other_num,
        den * middle == 2 * num <==> other_den * (middle * q) == 2 * other_num,
{
    let (x, y) = (den * middle, 2 * num);
    let (u, v) = (other_den * (middle * q), 2 * other_num);
    let scale = other_den * q;
    assert(scale > 0) by (nonlinear_arith)
        requires
            other_den > 0,
            q > 0,
            scale == other_den * q,
    ;
    assert(x * scale == u * den && y * scale == v * den) by (nonlinear_arith)
        requires
            x == den * middle,
            u == other_den * (middle * q),
            scale == other_den * q,
            y == 2 * num,
            v == 2 * other_num,
            other_num * den == num * other_den * q,
    ;
    assert(x < y <==> u < v) by (nonlinear_arith)
        requires
            x * scale == u * den,
            y * scale == v * den,
            scale > 0,
            den > 0,
    ;
    assert(x == y <==> u == v) by (nonlinear_arith)
        requires
            x * scale == u * den,
            y * scale == v * den,
            scale > 0,
            den > 0,
    ;
}

/// A number that is rounded from a power of two times another magnitude is the scaled number.
proof fn lemma_scaled_number(
    negative: bool,
    num: int,
    den: int,
    power: nat,
    other_num: int,
    other_den: int,
)
    requires
        den > 0,
        other_den > 0,
        num >= 0,
        rounded(negative, num, den).scalable(power),
        other_num * den == num * other_den * pow2(power),
    ensures
        rounded(negative, other_num, other_den) == rounded(negative, num, den).scaled(power),
{
    let x = rounded(negative, num, den);
    let k = nearest(num, den);
    lemma_rounded(negative, num, den);
    lemma_scaled_rounding(k, num, den, power, other_num, other_den);
    lemma_nearest(k + power * 0x80_0000, other_num, other_den);
    assert(x.bits + power * 0x80_0000 <= u32::MAX);
}

/// A product with a scaled factor is the scaled product.
pub proof fn law_product_with_scaled(a: Single, b: Single, power: nat)
    requires
        a.finite(),
        b.scalable(power),
        a.product(b).scalable(power),
    ensures
        a.product(b.scaled(power)) == a.product(b).scaled(power),
{
    law_scaled_value(b, power);
    lemma_pow2_pos(149);
    lemma_zero(a);
    lemma_zero(b);
    let (x, y, q, w) = (a.abs_value(), b.abs_value(), pow2(power) as int, pow2(149) as int);
    assert(x * y >= 0 && (x * (y * q)) * w == (x * y) * w * q) by (nonlinear_arith)
        requires
            x >= 0,
            y >= 0,
    ;
    lemma_scaled_number(a.negative() != b.negative(), x * y, w, power, x * (y * q), w);
}

/// A quotient by a number is the scaled quotient by the scaled number.
pub proof fn law_quotient_by_scaled(a: Single, b: Single, power: nat)
    requires
        a.finite(),
        b.scalable(power),
        a.quotient(b.scaled(power)).scalable(power),
    ensures
        a.quotient(b) == a.quotient(b.scaled(power)).scaled(power),
{
    law_scaled_value(b, power);
    lemma_pow2_pos(149);
    lemma_pow2_pos(power);
    lemma_zero(a);
    lemma_zero(b);
    let (x, y, q, w) = (a.abs_value(), b.abs_value(), pow2(power) as int, pow2(149) as int);
    let num = x * w;
    assert(num >= 0 && y * q > 0 && num * (y * q) == num * y * q) by (nonlinear_arith)
        requires
            num == x * w,
            x >= 0,
            y > 0,
            q > 0,
            w > 0,
    ;
    lemma_scaled_number(a.negative() != b.negative(), num, y * q, power, num, y);
}

/// A product does not change when one factor is scaled up and the other is scaled down.
pub proof fn law_product_of_scaled(a: Single, b: Single, power: nat)
    requires
        a.low_bits() == 0 || a.scalable(power),
        b.low_bits() == 0 || b.scalable(power),
    ensures
        a.product(b.scaled(power)) == a.scaled(power).product(b),
{
    lemma_zero(a);
    lemma_zero(b);
    if a.low_bits() != 0 {
        law_scaled_value(a, power);
    }
    if b.low_bits() != 0 {
        law_scaled_value(b, power);
    }
    let (x, y, q) = (a.abs_value(), b.abs_value(), pow2(power) as int);
    assert(x * (y * q) == (x * q) * y && (x == 0 ==> x * (y * q) == 0 && x * y == 0) && (y == 0
        ==> (x * q) * y == 0 && x * y == 0)) by (nonlinear_arith);
    let (xs, ys) = (a.scaled(power).abs_value(), b.scaled(power).abs_value());
    assert(x * ys == xs * y);
    assert(a.scaled(power).finite() && b.scaled(power).finite() && a.finite() && b.finite());
    assert(a.scaled(power).negative() == a.negative());
    assert(b.scaled(power).negative() == b.negative());
}

/// The crossing of a plane by a ray, and by the ray with the scaled direction.
proof fn lemma_scaled_crossing(way: Single, inverse: Single, power: nat)
    requires
        way.finite(),
        inverse.scalable(power),
        way.value() == 0 || way.product(inverse).scalable(power),
    ensures
        way.product(inverse.scaled(power)) == way.product(inverse).scaled(power),
        way.product(inverse).low_bits() == 0 || way.product(inverse).scalable(power),
{
    if way.value() == 0 {
        law_scaled_value(inverse, power);
        lemma_zero(way);
        law_product_with_zero(way, inverse);
        law_product_with_zero(way, inverse.scaled(power));
        law_product_sign(way, inverse);
        law_product_sign(way, inverse.scaled(power));
    } else {
        law_product_with_scaled(way, inverse, power);
    }
}

/// A zero, or a number that can be scaled.
pub open spec fn scales(x: Single, power: nat) -> bool {
    x.low_bits() == 0 || x.scalable(power)
}

/// Along one axis, nothing overflows or underflows on the way to the slab's planes, neither
/// with the direction nor with the scaled one, and the two are both parallel to the slab or
/// both not.
pub open spec fn scales_along(
    origin: Single,
    direction: Single,
    half: Single,
    power: nat,
) -> bool {
    let inverse = (Single { bits: ONE }).quotient(direction.scaled(power));
    let (low, high) = (half.opposite().difference(origin), half.difference(origin));
    ||| direction.low_bits() == 0
    ||| direction.scalable(power) && AxisRay::along(
        origin,
        direction.scaled(power),
        half,
    ).parallel()
    ||| {
        &&& !AxisRay::along(origin, direction, half).parallel()
        &&& direction.scalable(power)
        &&& inverse.scalable(power)
        &&& low.finite() && (low.value() == 0 || low.product(inverse).scalable(power))
        &&& high.finite() && (high.value() == 0 || high.product(inverse).scalable(power))
    }
}

/// Along one axis, `other` goes the way of `ray`, slower by a power of two.
#[verifier::opaque]
spec fn slower(ray: AxisRay, other: AxisRay, power: nat) -> bool {
    &&& ray.origin == other.origin
    &&& ray.direction == other.direction.scaled(power)
    &&& scales(other.direction, power)
    &&& ray.parallel() == other.parallel()
    &&& !ray.parallel() ==> {
        &&& other.low_crossing == ray.low_crossing.scaled(power)
        &&& other.high_crossing == ray.high_crossing.scaled(power)
        &&& scales(ray.low_crossing, power)
        &&& scales(ray.high_crossing, power)
    }
}

proof fn lemma_slower_ray(origin: Single, direction: Single, half: Single, power: nat)
    requires
        scales_along(origin, direction, half, power),
    ensures
        slower(
            AxisRay::along(origin, direction.scaled(power), half),
            AxisRay::along(origin, direction, half),
            power,
        ),
{
    reveal(slower);
    if direction.low_bits() == 0 {
        lemma_zero_is_parallel(direction);
    } else if direction.scalable(power) && AxisRay::along(
        origin,
        direction.scaled(power),
        half,
    ).parallel() {
        lemma_scaled_is_parallel(direction, power);
    } else {
        let one = Single { bits: ONE };
        let inverse = one.quotient(direction.scaled(power));
        law_quotient_by_scaled(one, direction, power);
        lemma_scaled_crossing(half.opposite().difference(origin), inverse, power);
        lemma_scaled_crossing(half.difference(origin), inverse, power);
    }
}

proof fn lemma_zero_is_parallel(direction: Single)
    requires
        direction.low_bits() == 0,
    ensures
        direction.magnitude().lt(Single { bits: PARALLEL_LIMIT }),
{
    law_unsigned_order_is_order_of_bits(direction.magnitude(), Single { bits: PARALLEL_LIMIT });
}

proof fn lemma_scaled_is_parallel(direction: Single, power: nat)
    requires
        direction.scalable(power),
        direction.scaled(power).magnitude().lt(Single { bits: PARALLEL_LIMIT }),
    ensures
        direction.magnitude().lt(Single { bits: PARALLEL_LIMIT }),
{
    let limit = Single { bits: PARALLEL_LIMIT };
    law_scaled_value(direction, power);
    law_unsigned_order_is_order_of_bits(direction.magnitude(), limit);
    law_unsigned_order_is_order_of_bits(direction.scaled(power).magnitude(), limit);
}

/// Scaled numbers are finite, and they are ordered as the numbers are.
proof fn lemma_scaled_order(x: Single, y: Single, power: nat)
    requires
        scales(x, power),
        scales(y, power),
    ensures
        x.finite(),
        x.scaled(power).finite(),
        x.scaled(power).value() < y.scaled(power).value() <==> x.value() < y.value(),
        x.scaled(power).value() >= 0 <==> x.value() >= 0,
{
    lemma_zero(x);
    lemma_zero(y);
    lemma_pow2_pos(power);
    if x.low_bits() != 0 {
        law_scaled_value(x, power);
    }
    if y.low_bits() != 0 {
        law_scaled_value(y, power);
    }
    let (v, w, q) = (x.value(), y.value(), pow2(power) as int);
    assert((v * q < w * q <==> v < w) && (v * q >= 0 <==> v >= 0) && 0 * q == 0)
        by (nonlinear_arith)
        requires
            q > 0,
    ;
    assert(x.scaled(power).value() == v * q && y.scaled(power).value() == w * q);
}

/// Along one axis, `other` crosses the slab as `ray` does, slower by a power of two.
#[verifier::opaque]
spec fn slab_slower(ray: AxisRay, other: AxisRay, half: Single, power: nat) -> bool {
    &&& other.parallel() == ray.parallel()
    &&& other.outside(half) == ray.outside(half)
    &&& !ray.parallel() ==> {
        &&& other.from_high() == ray.from_high()
        &&& other.entry() == ray.entry().scaled(power)
        &&& other.exit() == ray.exit().scaled(power)
        &&& scales(ray.entry(), power)
        &&& scales(ray.exit(), power)
    }
}

proof fn lemma_slower_slab(ray: AxisRay, other: AxisRay, half: Single, power: nat)
    requires
        slower(ray, other, power),
    ensures
        slab_slower(ray, other, half, power),
{
    reveal(slower);
    reveal(slab_slower);
    if !ray.parallel() {
        lemma_scaled_order(ray.low_crossing, ray.high_crossing, power);
        lemma_scaled_order(ray.high_crossing, ray.low_crossing, power);
    }
}

spec fn slabs_slower(axes: Seq<AxisRay>, other: Seq<AxisRay>, half: Single, power: nat) -> bool {
    &&& axes.len() == 3
    &&& other.len() == 3
    &&& forall|i: int| 0 <= i < 3 ==> slab_slower(#[trigger] axes[i], other[i], half, power)
}

/// A slab's bounds and their order do not change with the pace.
proof fn lemma_slower_pair(
    axes: Seq<AxisRay>,
    other: Seq<AxisRay>,
    half: Single,
    power: nat,
    i: int,
    j: int,
)
    requires
        slabs_slower(axes, other, half, power),
        0 <= i < 3,
        0 <= j < 3,
    ensures
        entries_alike(axes, other, i, j),
        exits_alike(axes, other, i, j),
{
    reveal(slab_slower);
    assert(slab_slower(axes[i], other[i], half, power));
    assert(slab_slower(axes[j], other[j], half, power));
    lemma_slower_bounds(axes[i], other[i], half, power);
    lemma_slower_bounds(axes[j], other[j], half, power);
    if !axes[i].parallel() && !axes[j].parallel() {
        lemma_scaled_order(axes[i].entry(), axes[j].entry(), power);
        lemma_scaled_order(axes[i].exit(), axes[j].exit(), power);
    }
}

proof fn lemma_slower_bounds(ray: AxisRay, other: AxisRay, half: Single, power: nat)
    requires
        slab_slower(ray, other, half, power),
    ensures
        ray.bounds_entry() == other.bounds_entry(),
        ray.bounds_exit() == other.bounds_exit(),
{
    reveal(slab_slower);
    if !ray.parallel() {
        lemma_scaled_order(ray.entry(), ray.exit(), power);
        lemma_scaled_order(ray.exit(), ray.entry(), power);
        lemma_infinite(ray.entry());
        lemma_infinite(ray.exit());
        lemma_infinite(other.entry());
        lemma_infinite(other.exit());
    }
}

/// Rays that differ in their pace enter and leave the same slabs.
proof fn lemma_slower_slabs(axes: Seq<AxisRay>, other: Seq<AxisRay>, half: Single, power: nat)
    requires
        slabs_slower(axes, other, half, power),
    ensures
        entry_axis(other) == entry_axis(axes),
        exit_axis(other) == exit_axis(axes),
        passes_by(other, half) == passes_by(axes, half),
{
    assert forall|i: int, j: int| 0 <= i < 3 && 0 <= j < 3 implies #[trigger] entries_alike(
        axes,
        other,
        i,
        j,
    ) by {
        lemma_slower_pair(axes, other, half, power, i, j);
    }
    lemma_same_entry(axes, other);
    assert forall|i: int, j: int| 0 <= i < 3 && 0 <= j < 3 implies #[trigger] exits_alike(
        axes,
        other,
        i,
        j,
    ) by {
        lemma_slower_pair(axes, other, half, power, i, j);
    }
    lemma_same_exit(axes, other);
    assert forall|i: int| 0 <= i < 3 implies (#[trigger] axes[i]).parallel() == other[i].parallel()
        && axes[i].outside(half) == other[i].outside(half) by {
        reveal(slab_slower);
        assert(slab_slower(axes[i], other[i], half, power));
    }
    if passes_by(axes, half) {
        let i = choose|i: int|
            0 <= i < axes.len() && (#[trigger] axes[i]).parallel() && axes[i].outside(half);
        assert(other[i].parallel() && other[i].outside(half));
    }
    if passes_by(other, half) {
        let i = choose|i: int|
            0 <= i < other.len() && (#[trigger] other[i]).parallel() && other[i].outside(half);
        assert(axes[i].parallel() && axes[i].outside(half));
    }
}

/// What the pace does to the parameters at which a ray enters and leaves.
proof fn lemma_slower_times(axes: Seq<AxisRay>, other: Seq<AxisRay>, half: Single, power: nat)
    requires
        slabs_slower(axes, other, half, power),
        entry_axis(other) == entry_axis(axes),
        exit_axis(other) == exit_axis(axes),
    ensures
        entry_axis(axes) is Some ==> {
            &&& scales(entry_time(axes), power)
            &&& entry_time(other) == entry_time(axes).scaled(power)
        },
        exit_axis(axes) is Some ==> {
            &&& scales(exit_time(axes), power)
            &&& exit_time(other) == exit_time(axes).scaled(power)
        },
{
    reveal(slab_slower);
    if let Some(k) = entry_axis(axes) {
        assert(entered_last(axes, 3, k));
        assert(slab_slower(axes[k], other[k], half, power));
    }
    if let Some(k) = exit_axis(axes) {
        assert(left_first(axes, 3, k));
        assert(slab_slower(axes[k], other[k], half, power));
    }
}

/// Rays that differ in their pace hit the cube, or miss it, together, and hit the same face.
proof fn lemma_slower_hit(axes: Seq<AxisRay>, other: Seq<AxisRay>, half: Single, power: nat)
    requires
        slabs_slower(axes, other, half, power),
    ensures
        hits(other, half) == hits(axes, half),
        hits(axes, half) ==> hit_face(other) == hit_face(axes),
        hits(axes, half) && !hit_time(axes).infinite() ==> scales(hit_time(axes), power)
            && hit_time(other) == hit_time(axes).scaled(power),
{
    lemma_slower_slabs(axes, other, half, power);
    lemma_slower_times(axes, other, half, power);
    let (entry, exit) = (entry_time(axes), exit_time(axes));
    let (first, last) = (Single { bits: NEG_INFINITY }, Single { bits: INFINITY });
    assert(first.infinite() && last.infinite());
    lemma_infinite(first);
    if entry_axis(axes) is Some {
        lemma_scaled_order(entry, entry, power);
        law_infinities_bound_all(entry);
        law_infinities_bound_all(entry_time(other));
    }
    if exit_axis(axes) is Some {
        lemma_scaled_order(exit, exit, power);
        law_infinities_bound_all(exit);
        law_infinities_bound_all(exit_time(other));
    }
    if entry_axis(axes) is Some && exit_axis(axes) is Some {
        lemma_scaled_order(exit, entry, power);
    }
    if let Some(k) = entry_axis(axes) {
        assert(entered_last(axes, 3, k));
        lemma_slower_side(axes[k], other[k], half, power);
    }
    if let Some(k) = exit_axis(axes) {
        assert(left_first(axes, 3, k));
        lemma_slower_side(axes[k], other[k], half, power);
    }
}

proof fn lemma_slower_side(ray: AxisRay, other: AxisRay, half: Single, power: nat)
    requires
        slab_slower(ray, other, half, power),
        !ray.parallel(),
    ensures
        other.from_high() == ray.from_high(),
{
    reveal(slab_slower);
}

/// The point at a parameter is the point of the slower ray at the scaled parameter.
proof fn lemma_slower_point(ray: AxisRay, other: AxisRay, power: nat, t: Single)
    requires
        slower(ray, other, power),
        scales(t, power),
    ensures
        other.coordinate(t.scaled(power)) == ray.coordinate(t),
{
    reveal(slower);
    law_product_of_scaled(other.direction, t, power);
}

/// The vector times two to the `power`.
pub open spec fn scaled_vector(v: Vec3, power: nat) -> Vec3 {
    Vec3 { x: v.x.scaled(power), y: v.y.scaled(power), z: v.z.scaled(power) }
}

/// A direction that is scaled by a power of two gives the same hit: the same point, to the
/// bit, on the same face. Where something overflows or underflows on the way, or a component
/// passes the limit of what counts as parallel, the hits may differ. A ray without a
/// direction hits no point.
#[verifier::rlimit(40)]
#[verifier::spinoff_prover]
pub proof fn law_scaled_direction_gives_same_hit(
    origin: Vec3,
    direction: Vec3,
    half: Single,
    power: nat,
)
    requires
        scales_along(origin.x, direction.x, half, power),
        scales_along(origin.y, direction.y, half, power),
        scales_along(origin.z, direction.z, half, power),
    ensures
        ({
            let axes = axes_of(origin, direction, half);
            let other = axes_of(origin, scaled_vector(direction, power), half);
            &&& hits(other, half) == hits(axes, half)
            &&& hits(axes, half) ==> hit_face(other) == hit_face(axes)
            &&& hits(axes, half) && !hit_time(other).infinite() ==> point_at(other, hit_time(other))
                == point_at(axes, hit_time(axes))
        }),
{
    let axes = axes_of(origin, direction, half);
    let other = axes_of(origin, scaled_vector(direction, power), half);
    lemma_slower_ray(origin.x, direction.x, half, power);
    lemma_slower_ray(origin.y, direction.y, half, power);
    lemma_slower_ray(origin.z, direction.z, half, power);
    assert(slower(other[0], axes[0], power));
    assert(slower(other[1], axes[1], power));
    assert(slower(other[2], axes[2], power));
    lemma_same_hit(other, axes, half, power);
}

proof fn lemma_same_hit(axes: Seq<AxisRay>, other: Seq<AxisRay>, half: Single, power: nat)
    requires
        axes.len() == 3,
        other.len() == 3,
        slower(axes[0], other[0], power),
        slower(axes[1], other[1], power),
        slower(axes[2], other[2], power),
    ensures
        hits(other, half) == hits(axes, half),
        hits(axes, half) ==> hit_face(other) == hit_face(axes),
        hits(axes, half) && !hit_time(axes).infinite() ==> point_at(axes, hit_time(axes))
            == point_at(other, hit_time(other)),
{
    assert forall|i: int| 0 <= i < 3 implies slab_slower(
        #[trigger] axes[i],
        other[i],
        half,
        power,
    ) by {
        assert(slower(axes[i], other[i], power));
        lemma_slower_slab(axes[i], other[i], half, power);
    }
    lemma_slower_hit(axes, other, half, power);
    if hits(axes, half) && !hit_time(axes).infinite() {
        let t = hit_time(axes);
        lemma_slower_point(axes[0], other[0], power, t);
        lemma_slower_point(axes[1], other[1], power, t);
        lemma_slower_point(axes[2], other[2], power, t);
    }
}

} // verus!

//! What a hit has of where its ray starts: a ray that starts inside the cube always hits, and
//! one that starts outside hits where it enters.
use crate::arithmetic::{
    law_difference_goes_with_order, law_product_keeps_sign, law_product_with_opposite,
    lemma_infinite, lemma_rounded, lemma_zero,
};
use crate::ray::{
    axes_of, entered_last, entry_axis, entry_time, exit_axis, exit_time, hit_time, hits, left_first,
    lemma_times, passes_by, AxisRay, ONE, PARALLEL_LIMIT,
};
use crate::rounding::{
    law_rounding_keeps_exact, law_rounding_keeps_order, lemma_encoding, nearest,
};
use crate::single::{
    law_magnitude_increases, law_value_of_fields, magnitude_of, Single, INFINITY, NEG_INFINITY,
};
use crate::vector::Vec3;
use vstd::arithmetic::power2::{
    lemma2_to64, lemma_pow2_adds, lemma_pow2_pos, lemma_pow2_strictly_increases, pow2,
};
use vstd::prelude::*;

verus! {

/// The inverse of a direction that is not a parallel one is finite, not zero, and has the
/// direction's sign.
proof fn lemma_inverse_is_proper(direction: Single)
    requires
        direction.finite(),
        !direction.magnitude().lt(Single { bits: PARALLEL_LIMIT }),
    ensures
        ({
            let inverse = (Single { bits: ONE }).quotient(direction);
            &&& inverse.finite()
            &&& inverse.value() != 0
            &&& inverse.negative() == direction.negative()
        }),
{
    let one = Single { bits: ONE };
    let inverse = one.quotient(direction);
    let den = direction.abs_value();
    let num = one.abs_value() * pow2(149);
    let top = INFINITY as int;
    lemma2_to64();
    lemma_pow2_pos(106);
    lemma_zero(direction);
    assert(pow2(129) <= den) by {
        lemma_pow2_adds(23, 106);
        law_value_of_fields(Single { bits: PARALLEL_LIMIT }, 107, 0x6_37bd);
    }
    assert(num == pow2(298)) by {
        lemma_pow2_adds(23, 126);
        law_value_of_fields(one, 127, 0);
        lemma_pow2_adds(149, 149);
    }
    lemma_pow2_pos(129);
    lemma_pow2_pos(298);
    lemma_rounded(direction.negative(), num, den);
    // From 2^-20 on the inverse is at most 2^20.
    let most: int = 147int * 0x80_0000;
    assert(magnitude_of(most) == pow2(169)) by {
        lemma_encoding(146, 0x80_0000);
        lemma_pow2_adds(23, 146);
    }
    lemma_pow2_adds(169, 129);
    lemma_pow2_pos(169);
    assert(num <= pow2(169) * den) by (nonlinear_arith)
        requires
            num == pow2(169) * pow2(129),
            pow2(129) <= den,
            pow2(169) > 0,
    ;
    law_rounding_keeps_exact(most, 1);
    law_rounding_keeps_order(nearest(num, den), num, den, most, magnitude_of(most), 1);
    assert(den <= num) by {
        lemma_encoding(253, 0x100_0000);
        lemma_pow2_adds(253, 24);
        lemma_pow2_strictly_increases(277, 298);
        law_magnitude_increases(direction.low_bits(), top);
    }
    law_rounding_keeps_exact(1, 1);
    assert(magnitude_of(1) == 1);
    law_rounding_keeps_order(1, 1, 1, nearest(num, den), num, den);
    lemma_zero(inverse);
}

/// The parameter of a crossing has the sign that the way there and the direction give it.
proof fn lemma_crossing_sign(way: Single, inverse: Single)
    requires
        !way.nan(),
        inverse.finite(),
        inverse.value() != 0,
    ensures
        !way.product(inverse).nan(),
        (way.value() >= 0 && !inverse.negative()) || (way.value() <= 0 && inverse.negative())
            ==> way.product(inverse).value() >= 0,
        (way.value() <= 0 && !inverse.negative()) || (way.value() >= 0 && inverse.negative())
            ==> way.product(inverse).value() <= 0,
{
    lemma_zero(inverse);
    if inverse.negative() {
        assert(inverse.opposite().low_bits() == inverse.low_bits());
        assert(inverse.opposite().value() == -inverse.value());
        law_product_keeps_sign(way, inverse.opposite());
        law_product_with_opposite(way, inverse);
    } else {
        law_product_keeps_sign(way, inverse);
    }
}

/// Where a ray crosses a slab, by where it starts.
proof fn lemma_crossing_signs(origin: Single, direction: Single, half: Single)
    requires
        origin.finite(),
        direction.finite(),
        half.finite(),
        half.value() >= 0,
        !direction.magnitude().lt(Single { bits: PARALLEL_LIMIT }),
    ensures
        ({
            let ray = AxisRay::along(origin, direction, half);
            let (entry, exit) = (ray.entry(), ray.exit());
            &&& !entry.nan()
            &&& !exit.nan()
            &&& ray.outside(half) ==> entry.value() >= 0 || exit.value() <= 0
            &&& !ray.outside(half) ==> entry.value() <= 0 <= exit.value()
        }),
{
    let inverse = (Single { bits: ONE }).quotient(direction);
    assert(half.opposite().low_bits() == half.low_bits());
    assert(half.opposite().value() == -half.value());
    lemma_inverse_is_proper(direction);
    law_difference_goes_with_order(half, origin);
    law_difference_goes_with_order(half.opposite(), origin);
    lemma_crossing_sign(half.difference(origin), inverse);
    lemma_crossing_sign(half.opposite().difference(origin), inverse);
}

/// What the slabs' entries and exits are, by where the ray starts.
#[verifier::opaque]
spec fn signs_hold(axes: Seq<AxisRay>, half: Single, i: int) -> bool {
    let (entry, exit) = (axes[i].entry(), axes[i].exit());
    axes[i].parallel() || {
        &&& !entry.nan()
        &&& !exit.nan()
        &&& axes[i].outside(half) ==> entry.value() >= 0 || exit.value() <= 0
        &&& !axes[i].outside(half) ==> entry.value() <= 0 <= exit.value()
    }
}

/// The components of a vector are finite.
pub open spec fn finite_vector(v: Vec3) -> bool {
    v.x.finite() && v.y.finite() && v.z.finite()
}

proof fn lemma_signs_hold(origin: Vec3, direction: Vec3, half: Single)
    requires
        finite_vector(origin),
        finite_vector(direction),
        half.finite(),
        half.value() >= 0,
    ensures
        signs_hold(axes_of(origin, direction, half), half, 0),
        signs_hold(axes_of(origin, direction, half), half, 1),
        signs_hold(axes_of(origin, direction, half), half, 2),
{
    reveal(signs_hold);
    let limit = Single { bits: PARALLEL_LIMIT };
    if !direction.x.magnitude().lt(limit) {
        lemma_crossing_signs(origin.x, direction.x, half);
    }
    if !direction.y.magnitude().lt(limit) {
        lemma_crossing_signs(origin.y, direction.y, half);
    }
    if !direction.z.magnitude().lt(limit) {
        lemma_crossing_signs(origin.z, direction.z, half);
    }
}

proof fn lemma_hit_from_outside(axes: Seq<AxisRay>, half: Single, i: int)
    requires
        0 <= i < axes.len(),
        signs_hold(axes, half, i),
        axes[i].outside(half),
        hits(axes, half),
    ensures
        entry_time(axes).value() >= 0 || hit_time(axes).value() == 0,
{
    reveal(signs_hold);
    lemma_times(axes);
    let (first, last) = (Single { bits: NEG_INFINITY }, Single { bits: INFINITY });
    assert(!first.nan() && !last.nan());
    lemma_infinite(first);
    assert(!axes[i].parallel());
    if axes[i].entry().value() >= 0 {
        assert(axes[i].bounds_entry());
    } else {
        assert(axes[i].bounds_exit());
    }
}

proof fn lemma_hit_from_inside(axes: Seq<AxisRay>, half: Single)
    requires
        axes.len() == 3,
        forall|i: int| 0 <= i < 3 ==> !(#[trigger] axes[i]).outside(half),
        signs_hold(axes, half, 0),
        signs_hold(axes, half, 1),
        signs_hold(axes, half, 2),
    ensures
        hits(axes, half),
        entry_time(axes).value() <= 0 <= exit_time(axes).value(),
{
    reveal(signs_hold);
    lemma_infinite(Single { bits: INFINITY });
    assert(!passes_by(axes, half));
    assert(entry_time(axes).value() <= 0) by {
        if let Some(k) = entry_axis(axes) {
            assert(entered_last(axes, 3, k));
            assert(!axes[k].outside(half));
        }
    }
    assert(exit_time(axes).value() >= 0) by {
        if let Some(k) = exit_axis(axes) {
            assert(left_first(axes, 3, k));
            assert(!axes[k].outside(half));
        }
    }
}

/// A ray that starts beyond a plane of the cube and hits it does so where it enters, or, where
/// the way is lost to rounding, at its start.
#[verifier::rlimit(40)]
#[verifier::spinoff_prover]
pub proof fn law_ray_from_outside_hits_where_it_enters(
    origin: Vec3,
    direction: Vec3,
    half: Single,
    i: int,
)
    requires
        0 <= i < 3,
        finite_vector(origin),
        finite_vector(direction),
        half.finite(),
        half.value() >= 0,
        axes_of(origin, direction, half)[i].outside(half),
        hits(axes_of(origin, direction, half), half),
    ensures
        entry_time(axes_of(origin, direction, half)).value() >= 0 || hit_time(
            axes_of(origin, direction, half),
        ).value() == 0,
{
    lemma_signs_hold(origin, direction, half);
    lemma_hit_from_outside(axes_of(origin, direction, half), half, i);
}

/// A ray that starts inside the cube, or on a face, hits it, whatever its direction.
#[verifier::rlimit(40)]
#[verifier::spinoff_prover]
pub proof fn law_ray_from_inside_hits(origin: Vec3, direction: Vec3, half: Single)
    requires
        finite_vector(origin),
        finite_vector(direction),
        half.finite(),
        half.value() >= 0,
        forall|i: int|
            0 <= i < 3 ==> !(#[trigger] axes_of(origin, direction, half)[i]).outside(half),
    ensures
        hits(axes_of(origin, direction, half), half),
        entry_time(axes_of(origin, direction, half)).value() <= 0,
        exit_time(axes_of(origin, direction, half)).value() >= 0,
{
    lemma_signs_hold(origin, direction, half);
    lemma_hit_from_inside(axes_of(origin, direction, half), half);
}

} // verus!

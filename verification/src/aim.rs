//! Which rays pick the cube, and at which of their points, in exact numbers.
use crate::accuracy::{
    distance, law_difference_is_accurate, law_product_is_accurate, law_sum_is_accurate,
};
use crate::arithmetic::{
    law_difference_goes_with_order, law_small_term_does_not_overflow, law_sum_commutes,
    lemma_infinite, lemma_zero,
};
use crate::motion::{greatest, lemma_finite_size, lemma_greatest, lemma_multiplied, size};
use crate::pick::{
    lemma_crossings_are_finite, lemma_cube_half, lemma_face_is_reached,
    lemma_reached_at_finite_parameter, meeting_point, meets_cube, moderate, picked_point,
    CUBE_HALF,
};
use crate::ray::{
    axes_of, entered_last, entry_axis, entry_time, hit_time, hits, in_cube,
    law_hit_iff_ray_reaches_cube, law_hit_is_where_ray_enters_or_leaves, on_ray, passes_by, AxisRay,
    ONE, PARALLEL_LIMIT,
};
use crate::single::{lemma_opposite, Single};
use crate::start::{
    finite_vector, law_ray_from_inside_hits, law_ray_from_outside_hits_where_it_enters,
};
use crate::surface::{
    law_point_well_between_planes_is_in_slab, reaches_plane, well_between_planes,
};
use crate::vector::Vec3;
use vstd::arithmetic::power2::{
    lemma2_to64, lemma_pow2_adds, lemma_pow2_pos, lemma_pow2_strictly_increases, pow2,
};
use vstd::prelude::*;

verus! {

/// Along one axis, the exact point of a ray at a parameter is inside the cube, which goes from
/// -0.75 to 0.75, by more than rounding may take: by one part in 2^20 of the distances of the
/// cube's face and of the ray's start from the centre. Of a ray that is parallel to the faces
/// the start counts.
pub open spec fn well_inside(origin: Single, direction: Single, t: Single) -> bool {
    let one = pow2(149) as int;
    let at = origin.value() * one + direction.value() * t.value();
    if direction.magnitude().lt(Single { bits: PARALLEL_LIMIT }) {
        4 * origin.abs_value() <= 3 * one
    } else {
        0x10_0000 * (3 * (one * one) - 4 * size(at)) > (3 * one + 4 * origin.abs_value()) * one
    }
}

/// The exact point of a ray at a parameter is inside the cube along every axis.
pub open spec fn ray_well_inside(origin: Vec3, direction: Vec3, t: Single) -> bool {
    &&& well_inside(origin.x, direction.x, t)
    &&& well_inside(origin.y, direction.y, t)
    &&& well_inside(origin.z, direction.z, t)
}

/// The ray is moderate along every axis.
pub open spec fn moderate_ray(origin: Vec3, direction: Vec3) -> bool {
    &&& moderate(origin.x, direction.x)
    &&& moderate(origin.y, direction.y)
    &&& moderate(origin.z, direction.z)
}

/// A point along one axis is inside the cube or on one of its faces.
pub open spec fn starts_inside(origin: Single) -> bool {
    4 * origin.abs_value() <= 3 * pow2(149)
}

/// A point is that of a ray at a parameter, with each coordinate rounded.
pub open spec fn is_point_of_ray(point: Vec3, origin: Vec3, direction: Vec3, t: Single) -> bool {
    &&& point.x == origin.x.sum(direction.x.product(t))
    &&& point.y == origin.y.sum(direction.y.product(t))
    &&& point.z == origin.z.sum(direction.z.product(t))
}

/// A face's distance from the centre is three quarters of one.
proof fn lemma_three_quarters()
    ensures
        4 * (Single { bits: CUBE_HALF }).value() == 3 * pow2(149),
        (Single { bits: CUBE_HALF }).abs_value() == (Single { bits: CUBE_HALF }).value(),
        (Single { bits: CUBE_HALF }).finite(),
        (Single { bits: CUBE_HALF }).opposite().value() == -(Single { bits: CUBE_HALF }).value(),
        !(Single { bits: CUBE_HALF }).opposite().nan(),
        pow2(149) >= 0x1000_0000,
        pow2(169) == 0x10_0000 * pow2(149),
{
    let half = Single { bits: CUBE_HALF };
    lemma_cube_half();
    lemma2_to64();
    lemma_pow2_adds(124, 25);
    lemma_pow2_adds(149, 20);
    lemma_pow2_adds(28, 121);
    lemma_pow2_pos(121);
    let p = pow2(121) as int;
    assert(0x1000_0000 * p >= 0x1000_0000) by (nonlinear_arith)
        requires
            p >= 1,
    ;
    assert(half.opposite().low_bits() == half.low_bits());
}

/// What rounding may take of the exact point.
proof fn lemma_rounded_point(o: int, m: int, s: int, r: int, w: int)
    requires
        w >= 0x1000_0000,
        size(o) <= 0x10_0000 * w,
        0x100_0000 * distance(m, s * w) <= size(s) * w + 0x80_0000 * w,
        0x100_0000 * distance(o + s, r) <= size(r),
        0x10_0000 * (3 * (w * w) - 4 * size(o * w + m)) > (3 * w + 4 * size(o)) * w,
    ensures
        0x20_0000 * (3 * w - 4 * size(r)) > 3 * w + 4 * size(o),
{
    let at = o * w + m;
    let (e, f) = (m - s * w, o + s - r);
    let (rw, b) = (size(r) * w, 3 * size(r) + size(o) + 0x80_0000);
    let fw = f * w;
    assert(at == r * w + e + fw) by (nonlinear_arith)
        requires
            at == o * w + m,
            e == m - s * w,
            f == o + s - r,
            fw == f * w,
    ;
    assert(-rw <= 0x100_0000 * fw <= rw) by (nonlinear_arith)
        requires
            rw == size(r) * w,
            fw == f * w,
            -size(r) <= 0x100_0000 * f <= size(r),
            w > 0,
    ;
    assert(size(r * w) == rw) by (nonlinear_arith)
        requires
            rw == size(r) * w,
            size(r) == (if r < 0 { -r } else { r }),
            size(r * w) == (if r * w < 0 { -(r * w) } else { r * w }),
            w > 0,
    ;
    assert(size(s) <= 2 * size(r) + size(o));
    let bw = b * w;
    assert(size(s) * w + 0x80_0000 * w + rw <= bw) by (nonlinear_arith)
        requires
            size(s) <= 2 * size(r) + size(o),
            rw == size(r) * w,
            bw == b * w,
            b == 3 * size(r) + size(o) + 0x80_0000,
            w > 0,
    ;
    assert(0x100_0000 * size(at) >= 0x100_0000 * rw - bw);
    let (ww, ow) = (w * w, (3 * w + 4 * size(o)) * w);
    let inner = 0x40_0000 * (3 * w - 4 * size(r)) + b - 4 * (3 * w + 4 * size(o));
    assert(inner * w == 0x40_0000 * (3 * ww - 4 * rw) + bw - 4 * ow) by (nonlinear_arith)
        requires
            inner == 0x40_0000 * (3 * w - 4 * size(r)) + b - 4 * (3 * w + 4 * size(o)),
            ww == w * w,
            rw == size(r) * w,
            bw == b * w,
            ow == (3 * w + 4 * size(o)) * w,
    ;
    assert(inner * w > 0);
    assert(inner > 0) by (nonlinear_arith)
        requires
            inner * w > 0,
            w > 0,
    ;
}

/// A point that is exactly well inside is so after rounding, along an axis that the ray crosses.
#[verifier::rlimit(40)]
#[verifier::spinoff_prover]
proof fn lemma_well_between(origin: Single, direction: Single, t: Single)
    requires
        moderate(origin, direction),
        t.finite(),
        !direction.magnitude().lt(Single { bits: PARALLEL_LIMIT }),
        well_inside(origin, direction, t),
    ensures
        well_between_planes(
            origin.sum(direction.product(t)),
            Single { bits: CUBE_HALF },
            origin,
        ),
{
    let (step, w) = (direction.product(t), pow2(149) as int);
    let m = direction.value() * t.value();
    lemma_three_quarters();
    lemma_finite_size(origin);
    lemma_zero(origin);
    lemma_greatest();
    lemma_multiplied(direction, t);
    let (o, g) = (origin.value(), greatest());
    let (ow, ww) = (o * w, w * w);
    assert(size(ow) <= 0x10_0000 * ww) by (nonlinear_arith)
        requires
            ow == o * w,
            ww == w * w,
            size(o) <= 0x10_0000 * w,
            size(o) == (if o < 0 { -o } else { o }),
            size(ow) == (if ow < 0 { -ow } else { ow }),
            w > 0,
    ;
    assert((3 * w + 4 * size(o)) * w >= 0) by (nonlinear_arith)
        requires
            w > 0,
            size(o) >= 0,
    ;
    assert(size(m) < 0x20_0000 * ww);
    assert(0x20_0000 * ww <= g * w && 4 * (0x20_0000 * w) < pow2(253)) by {
        lemma2_to64();
        lemma_pow2_adds(149, 23);
        lemma_pow2_strictly_increases(172, 253);
        assert(0x20_0000 * ww <= g * w) by (nonlinear_arith)
            requires
                ww == w * w,
                0x20_0000 * w <= g,
                w > 0,
        ;
    }
    assert(step.finite());
    lemma_finite_size(step);
    law_product_is_accurate(direction, t);
    let sv = step.value();
    assert(size(sv) <= 0x40_0000 * w) by (nonlinear_arith)
        requires
            0x100_0000 * distance(m, sv * w) <= size(sv) * w + 0x80_0000 * w,
            size(m) < 0x20_0000 * (w * w),
            w >= 0x1000_0000,
            size(m) == (if m < 0 { -m } else { m }),
            size(sv) == (if sv < 0 { -sv } else { sv }),
            distance(m, sv * w) == (if m <= sv * w { sv * w - m } else { m - sv * w }),
    {
        if size(sv) > 0x40_0000 * w {
            assert(size(sv) * w > 0x40_0000 * w * w);
        }
    }
    law_sum_commutes(origin, step);
    law_small_term_does_not_overflow(step, origin);
    law_sum_is_accurate(origin, step);
    lemma_finite_size(origin.sum(step));
    lemma_rounded_point(o, m, sv, origin.sum(step).value(), w);
}

/// Along one axis, a point that is well inside counts as one in the slab.
#[verifier::rlimit(40)]
#[verifier::spinoff_prover]
proof fn lemma_admitted(origin: Vec3, direction: Vec3, t: Single, i: int)
    requires
        0 <= i < 3,
        moderate(origin.along(i), direction.along(i)),
        t.finite(),
        well_inside(origin.along(i), direction.along(i), t),
    ensures
        axes_of(origin, direction, Single { bits: CUBE_HALF })[i].admits(
            Single { bits: CUBE_HALF },
            t.value(),
        ),
{
    let half = Single { bits: CUBE_HALF };
    let (o, d) = (origin.along(i), direction.along(i));
    let ray = axes_of(origin, direction, half)[i];
    assert(ray == AxisRay::along(o, d, half));
    lemma_three_quarters();
    lemma_zero(o);
    if d.magnitude().lt(Single { bits: PARALLEL_LIMIT }) {
        assert(!ray.outside(half));
    } else {
        lemma_crossings_are_finite(o, d);
        lemma_face_is_reached(o, d, true);
        lemma_face_is_reached(o, d, false);
        lemma_well_between(o, d, t);
        law_point_well_between_planes_is_in_slab(origin, direction, half, t, i);
    }
}

/// A parameter at which the ray is well inside is one at which it counts as in the cube.
proof fn lemma_in_cube(origin: Vec3, direction: Vec3, t: Single)
    requires
        moderate_ray(origin, direction),
        t.finite(),
        t.value() >= 0,
        ray_well_inside(origin, direction, t),
    ensures
        on_ray(t.value()),
        in_cube(
            axes_of(origin, direction, Single { bits: CUBE_HALF }),
            Single { bits: CUBE_HALF },
            t.value(),
        ),
{
    let half = Single { bits: CUBE_HALF };
    let axes = axes_of(origin, direction, half);
    lemma_infinite(t);
    lemma_admitted(origin, direction, t, 0);
    lemma_admitted(origin, direction, t, 1);
    lemma_admitted(origin, direction, t, 2);
    assert forall|i: int| 0 <= i < axes.len() implies (#[trigger] axes[i]).admits(
        half,
        t.value(),
    ) by {
        assert(i == 0 || i == 1 || i == 2);
    }
}

/// A ray that has a point well inside the cube, not behind its start, picks a point.
pub proof fn law_ray_through_cube_picks(origin: Vec3, direction: Vec3, t: Single)
    requires
        moderate_ray(origin, direction),
        t.finite(),
        t.value() >= 0,
        ray_well_inside(origin, direction, t),
    ensures
        meets_cube(origin, direction),
        picked_point(Some((origin, direction))) == Some(meeting_point(origin, direction)),
{
    let half = Single { bits: CUBE_HALF };
    lemma_in_cube(origin, direction, t);
    law_hit_iff_ray_reaches_cube(axes_of(origin, direction, half), half);
}

/// A ray that starts beyond a face picks a point before any of its points that is well inside
/// the cube.
pub proof fn law_picked_point_comes_first(origin: Vec3, direction: Vec3, t: Single)
    requires
        moderate_ray(origin, direction),
        t.finite(),
        t.value() >= 0,
        ray_well_inside(origin, direction, t),
        !starts_inside(origin.x) || !starts_inside(origin.y) || !starts_inside(origin.z),
    ensures
        exists|h: Single|
            {
                &&& h.finite()
                &&& 0 <= h.value() <= t.value()
                &&& #[trigger] is_point_of_ray(
                    meeting_point(origin, direction),
                    origin,
                    direction,
                    h,
                )
            },
{
    let half = Single { bits: CUBE_HALF };
    let axes = axes_of(origin, direction, half);
    let h = hit_time(axes);
    lemma_three_quarters();
    lemma_in_cube(origin, direction, t);
    law_hit_iff_ray_reaches_cube(axes, half);
    law_hit_is_where_ray_enters_or_leaves(axes, half);
    let i: int = if !starts_inside(origin.x) {
        0
    } else if !starts_inside(origin.y) {
        1
    } else {
        2
    };
    lemma_zero(origin.along(i));
    assert(axes[i].origin == origin.along(i));
    assert(axes[i].outside(half));
    law_ray_from_outside_hits_where_it_enters(origin, direction, half, i);
    lemma_finite_size(t);
    lemma_greatest();
    assert(h.value() <= t.value());
    assert(is_point_of_ray(meeting_point(origin, direction), origin, direction, h));
}

/// A ray that is parallel to two faces, and starts beyond one of them, picks nothing.
pub proof fn law_ray_beside_cube_picks_nothing(origin: Vec3, direction: Vec3, i: int)
    requires
        0 <= i < 3,
        origin.along(i).finite(),
        !starts_inside(origin.along(i)),
        direction.along(i).magnitude().lt(Single { bits: PARALLEL_LIMIT }),
    ensures
        !meets_cube(origin, direction),
        picked_point(Some((origin, direction))) is None,
{
    let half = Single { bits: CUBE_HALF };
    let axes = axes_of(origin, direction, half);
    lemma_three_quarters();
    lemma_opposite(half);
    lemma_axis(origin, direction, half, i);
    lemma_starts_beyond_slab(axes[i], half);
    assert(axes[i].parallel());
    assert(passes_by(axes, half));
}

/// A ray that starts inside the cube picks a point, whatever its direction.
pub proof fn law_ray_from_inside_picks(origin: Vec3, direction: Vec3)
    requires
        finite_vector(origin),
        finite_vector(direction),
        starts_inside(origin.x) && starts_inside(origin.y) && starts_inside(origin.z),
    ensures
        meets_cube(origin, direction),
        picked_point(Some((origin, direction))) == Some(meeting_point(origin, direction)),
{
    lemma_starts_inside(origin, direction);
}

proof fn lemma_starts_inside(origin: Vec3, direction: Vec3)
    requires
        finite_vector(origin),
        finite_vector(direction),
        starts_inside(origin.x) && starts_inside(origin.y) && starts_inside(origin.z),
    ensures
        meets_cube(origin, direction),
        entry_time(axes_of(origin, direction, Single { bits: CUBE_HALF })).value() <= 0,
{
    let half = Single { bits: CUBE_HALF };
    let axes = axes_of(origin, direction, half);
    lemma_three_quarters();
    lemma_zero(origin.x);
    lemma_zero(origin.y);
    lemma_zero(origin.z);
    assert forall|i: int| 0 <= i < 3 implies !(#[trigger] axes[i]).outside(half) by {
        assert(axes[i].origin == origin.along(i));
    }
    law_ray_from_inside_hits(origin, direction, half);
}

/// A ray that does not start on a face crosses the face's plane at another parameter than zero.
proof fn lemma_crossing_is_not_at_start(origin: Single, direction: Single)
    requires
        moderate(origin, direction),
        !direction.magnitude().lt(Single { bits: PARALLEL_LIMIT }),
        4 * origin.abs_value() < 3 * pow2(149),
    ensures
        AxisRay::along(origin, direction, Single { bits: CUBE_HALF }).low_crossing.value() != 0,
        AxisRay::along(origin, direction, Single { bits: CUBE_HALF }).high_crossing.value() != 0,
{
    let half = Single { bits: CUBE_HALF };
    lemma_three_quarters();
    lemma_zero(origin);
    lemma_face_is_reached(origin, direction, true);
    lemma_face_is_reached(origin, direction, false);
    lemma_crossing_is_not_zero(origin, direction, half);
    lemma_crossing_is_not_zero(origin, direction, half.opposite());
}

proof fn lemma_crossing_is_not_zero(origin: Single, direction: Single, plane: Single)
    requires
        reaches_plane(origin, direction, plane),
        plane.value() != origin.value(),
    ensures
        plane.difference(origin).product((Single { bits: ONE }).quotient(direction)).value() != 0,
{
    reveal(reaches_plane);
    let way = plane.difference(origin);
    law_difference_goes_with_order(plane, origin);
    law_difference_is_accurate(plane, origin);
    lemma_zero(way);
    lemma_zero(way.product((Single { bits: ONE }).quotient(direction)));
}

/// A ray that starts inside the cube and on no face picks a point that does not come before any
/// of its points that is well inside: the point where it leaves.
#[verifier::rlimit(40)]
#[verifier::spinoff_prover]
pub proof fn law_ray_from_inside_picks_where_it_leaves(origin: Vec3, direction: Vec3, t: Single)
    requires
        moderate_ray(origin, direction),
        t.finite(),
        t.value() >= 0,
        ray_well_inside(origin, direction, t),
        4 * origin.x.abs_value() < 3 * pow2(149),
        4 * origin.y.abs_value() < 3 * pow2(149),
        4 * origin.z.abs_value() < 3 * pow2(149),
    ensures
        exists|h: Single|
            {
                &&& !h.nan()
                &&& h.value() >= t.value()
                &&& #[trigger] is_point_of_ray(
                    meeting_point(origin, direction),
                    origin,
                    direction,
                    h,
                )
            },
{
    let half = Single { bits: CUBE_HALF };
    let axes = axes_of(origin, direction, half);
    let h = hit_time(axes);
    lemma_in_cube(origin, direction, t);
    lemma_starts_inside(origin, direction);
    law_hit_is_where_ray_enters_or_leaves(axes, half);
    assert(entry_time(axes).value() < 0) by {
        match entry_axis(axes) {
            Some(k) => {
                assert(entered_last(axes, 3, k));
                assert(axes[k].bounds_entry());
                assert(axes[k] == AxisRay::along(origin.along(k), direction.along(k), half));
                lemma_crossing_is_not_at_start(origin.along(k), direction.along(k));
            },
            None => {
                lemma_infinite(t);
            },
        }
    }
    assert(is_point_of_ray(meeting_point(origin, direction), origin, direction, h));
}

/// Along one axis, a point of a ray is inside a cube of any size: well between the planes that
/// the ray crosses, or, of a ray that is parallel to them, where the ray starts between them.
pub open spec fn inside_slab(origin: Single, direction: Single, half: Single, t: Single) -> bool {
    if direction.magnitude().lt(Single { bits: PARALLEL_LIMIT }) {
        origin.finite() && -half.value() <= origin.value() <= half.value()
    } else {
        &&& reaches_plane(origin, direction, half)
        &&& reaches_plane(origin, direction, half.opposite())
        &&& well_between_planes(origin.sum(direction.product(t)), half, origin)
    }
}

#[verifier::rlimit(40)]
#[verifier::spinoff_prover]
proof fn lemma_inside_slab(origin: Vec3, direction: Vec3, half: Single, t: Single, i: int)
    requires
        0 <= i < 3,
        half.finite(),
        half.value() >= 0,
        t.finite(),
        inside_slab(origin.along(i), direction.along(i), half, t),
    ensures
        axes_of(origin, direction, half)[i].admits(half, t.value()),
{
    let (o, d) = (origin.along(i), direction.along(i));
    if d.magnitude().lt(Single { bits: PARALLEL_LIMIT }) {
        lemma_parallel_inside(origin, direction, half, t, i);
    } else {
        lemma_reached_at_finite_parameter(o, d, half);
        lemma_reached_at_finite_parameter(o, d, half.opposite());
        assert(axes_of(origin, direction, half)[i] == AxisRay::along(o, d, half));
        law_point_well_between_planes_is_in_slab(origin, direction, half, t, i);
    }
}

proof fn lemma_parallel_inside(origin: Vec3, direction: Vec3, half: Single, t: Single, i: int)
    requires
        0 <= i < 3,
        half.finite(),
        direction.along(i).magnitude().lt(Single { bits: PARALLEL_LIMIT }),
        inside_slab(origin.along(i), direction.along(i), half, t),
    ensures
        axes_of(origin, direction, half)[i].admits(half, t.value()),
{
    lemma_opposite(half);
    lemma_axis(origin, direction, half, i);
    lemma_starts_in_slab(axes_of(origin, direction, half)[i], half, t.value());
}

/// The ray along an axis.
proof fn lemma_axis(origin: Vec3, direction: Vec3, half: Single, i: int)
    requires
        0 <= i < 3,
    ensures
        axes_of(origin, direction, half)[i].origin == origin.along(i),
        axes_of(origin, direction, half)[i].direction == direction.along(i),
{
}

/// A ray that is parallel to a slab and starts in it stays there.
proof fn lemma_starts_in_slab(ray: AxisRay, half: Single, v: int)
    requires
        ray.parallel(),
        ray.origin.finite(),
        half.opposite().value() == -half.value(),
        -half.value() <= ray.origin.value() <= half.value(),
    ensures
        ray.admits(half, v),
{
}

/// A ray that starts beyond one of a slab's planes starts outside of the slab.
proof fn lemma_starts_beyond_slab(ray: AxisRay, half: Single)
    requires
        ray.origin.finite(),
        half.finite(),
        half.opposite().low_bits() == half.low_bits(),
        half.opposite().value() == -half.value(),
        ray.origin.abs_value() > half.value(),
    ensures
        ray.outside(half),
{
}

/// A ray that has a point inside a cube of any size, not behind its start, hits the cube. If it
/// starts beyond one of the faces' planes, the hit does not come after that point.
pub proof fn law_ray_through_any_cube_hits(origin: Vec3, direction: Vec3, half: Single, t: Single)
    requires
        half.finite(),
        half.value() >= 0,
        t.finite(),
        t.value() >= 0,
        inside_slab(origin.x, direction.x, half, t),
        inside_slab(origin.y, direction.y, half, t),
        inside_slab(origin.z, direction.z, half, t),
    ensures
        ({
            let axes = axes_of(origin, direction, half);
            let beyond = origin.x.abs_value() > half.value() || origin.y.abs_value() > half.value()
                || origin.z.abs_value() > half.value();
            &&& hits(axes, half)
            &&& !hit_time(axes).nan()
            &&& finite_vector(origin) && finite_vector(direction) && beyond ==> 0 <= hit_time(
                axes,
            ).value() <= t.value()
        }),
{
    let axes = axes_of(origin, direction, half);
    lemma_infinite(t);
    lemma_inside_slab(origin, direction, half, t, 0);
    lemma_inside_slab(origin, direction, half, t, 1);
    lemma_inside_slab(origin, direction, half, t, 2);
    assert(in_cube(axes, half, t.value())) by {
        assert forall|i: int| 0 <= i < axes.len() implies (#[trigger] axes[i]).admits(
            half,
            t.value(),
        ) by {
            assert(i == 0 || i == 1 || i == 2);
        }
    }
    assert(on_ray(t.value()));
    law_hit_iff_ray_reaches_cube(axes, half);
    law_hit_is_where_ray_enters_or_leaves(axes, half);
    if finite_vector(origin) && finite_vector(direction) {
        lemma_hit_from_beyond(origin, direction, half, 0);
        lemma_hit_from_beyond(origin, direction, half, 1);
        lemma_hit_from_beyond(origin, direction, half, 2);
    }
}

proof fn lemma_hit_from_beyond(origin: Vec3, direction: Vec3, half: Single, i: int)
    requires
        0 <= i < 3,
        finite_vector(origin),
        finite_vector(direction),
        half.finite(),
        half.value() >= 0,
        hits(axes_of(origin, direction, half), half),
    ensures
        origin.along(i).abs_value() > half.value() ==> {
            let axes = axes_of(origin, direction, half);
            entry_time(axes).value() >= 0 || hit_time(axes).value() == 0
        },
{
    if origin.along(i).abs_value() > half.value() {
        lemma_opposite(half);
        lemma_axis(origin, direction, half, i);
        lemma_starts_beyond_slab(axes_of(origin, direction, half)[i], half);
        law_ray_from_outside_hits_where_it_enters(origin, direction, half, i);
    }
}

} // verus!

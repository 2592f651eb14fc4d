//! Where a hit lies: on the plane of the face that is named, but for rounding.
use crate::accuracy::{
    distance, law_difference_is_accurate, law_product_is_accurate, law_quotient_is_accurate,
    law_sum_is_accurate,
};
use crate::arithmetic::{
    law_finite_number_has_sums, law_product_commutes, law_product_goes_by_values,
    law_product_keeps_order, law_product_sign, law_product_with_fraction, law_quotient_sign,
    law_sum_commutes, law_sum_goes_by_values, law_sum_keeps_order, lemma_infinite, lemma_rounded,
    lemma_same_magnitude, lemma_zero,
};
use crate::ray::{
    axes_of, entered_last, entry_axis, entry_time, exit_axis, face_name, hit_face, hit_time, hits,
    in_cube, law_face_names_differ, left_first, lemma_products_in_order, lemma_times, passes_by,
    AxisRay, ONE, PARALLEL_LIMIT,
};
use crate::rounding::law_rounding_keeps_exact;
use crate::single::{
    law_value_of_fields, lemma_opposite, magnitude_of, Single, INFINITY, NEG_INFINITY,
};
use crate::vector::Vec3;
use vstd::arithmetic::power2::{
    lemma2_to64, lemma_pow2_adds, lemma_pow2_pos, lemma_pow2_strictly_increases, pow2,
};
use vstd::prelude::*;

verus! {

/// `x` is within one part in 2^24 of `y`.
spec fn close(x: int, y: int) -> bool {
    0x100_0000 * distance(x, y) <= y
}

proof fn lemma_close_scales(x: int, y: int, scale: int)
    requires
        close(x, y),
        scale >= 0,
    ensures
        close(x * scale, y * scale),
{
    let gap = distance(x, y);
    assert(distance(x * scale, y * scale) == gap * scale) by (nonlinear_arith)
        requires
            gap == (if x <= y { y - x } else { x - y }),
            scale >= 0,
            distance(x * scale, y * scale) == (if x * scale <= y * scale {
                y * scale - x * scale
            } else {
                x * scale - y * scale
            }),
    ;
    assert(0x100_0000 * (gap * scale) <= y * scale) by (nonlinear_arith)
        requires
            0x100_0000 * gap <= y,
            scale >= 0,
    ;
}

/// Going along `d` for the parameter at which a way of `e` has been gone ends close to `e`:
/// four roundings are in between, of the way `a`, of the inverse `i` of `d`, of the parameter
/// `t` and of the way `p`. All are in units of one part in `w`.
proof fn lemma_way_there(e: int, a: int, i: int, d: int, t: int, p: int, w: int)
    requires
        w > 0,
        a >= 0,
        d >= 0,
        p >= 0,
        close(e, a),
        close(w * w, i * d),
        close(a * i, t * w),
        close(d * t, p * w),
    ensures
        0x100_0000 * distance(e, p) <= 5 * p,
{
    let x0 = p * w * w;
    let x1 = d * t * w;
    let x2 = a * i * d;
    let x3 = w * w * a;
    let x4 = e * (w * w);
    lemma_close_scales(d * t, p * w, w);
    lemma_close_scales(a * i, t * w, d);
    lemma_close_scales(w * w, i * d, a);
    assert(w * w >= 1) by (nonlinear_arith)
        requires
            w >= 1,
    ;
    lemma_close_scales(e, a, w * w);
    assert(t * w * d == x1 && i * d * a == x2 && a * (w * w) == x3) by (nonlinear_arith)
        requires
            x1 == d * t * w,
            x2 == a * i * d,
            x3 == w * w * a,
    ;
    assert(close(x1, x0) && close(x2, x1) && close(x3, x2) && close(x4, x3));
    assert(0x100_0000 * distance(x4, x0) <= 5 * x0);
    let (scale, gap) = (w * w, distance(e, p));
    assert(x0 == p * scale) by (nonlinear_arith)
        requires
            x0 == p * w * w,
            scale == w * w,
    ;
    assert(distance(x4, x0) == gap * scale) by (nonlinear_arith)
        requires
            x4 == e * scale,
            x0 == p * scale,
            scale >= 1,
            gap == (if e <= p { p - e } else { e - p }),
            distance(x4, x0) == (if x4 <= x0 { x0 - x4 } else { x4 - x0 }),
    ;
    assert(0x100_0000 * gap <= 5 * p) by (nonlinear_arith)
        requires
            0x100_0000 * (gap * scale) <= 5 * (p * scale),
            scale >= 1,
    ;
}

/// No step from the origin to the plane and back to the point there overflows, and none
/// underflows.
#[verifier::opaque]
pub open spec fn reaches_plane(origin: Single, direction: Single, plane: Single) -> bool {
    let inverse = (Single { bits: ONE }).quotient(direction);
    let way = plane.difference(origin);
    let t = way.product(inverse);
    let there = direction.product(t);
    &&& !origin.nan() && !origin.infinite()
    &&& !plane.nan() && !plane.infinite()
    &&& !direction.nan() && !direction.infinite() && direction.value() != 0
    &&& inverse.normal()
    &&& !way.infinite()
    &&& way.value() == 0 || (t.normal() && there.normal())
    &&& !origin.sum(there).infinite()
}

/// The sign and the error of a product that neither overflows nor underflows.
proof fn lemma_regular_product(a: Single, b: Single)
    requires
        !a.nan(),
        !b.nan(),
        !a.infinite(),
        !b.infinite(),
        a.product(b).normal() || a.value() == 0 || b.value() == 0,
    ensures
        !a.product(b).nan(),
        !a.product(b).infinite(),
        a.product(b).negative() == (a.negative() != b.negative()),
        a.value() == 0 || b.value() == 0 ==> a.product(b).value() == 0,
        close(a.abs_value() * b.abs_value(), a.product(b).abs_value() * pow2(149)),
{
    lemma_zero(a);
    lemma_zero(b);
    lemma_pow2_pos(149);
    let num = a.abs_value() * b.abs_value();
    assert(num >= 0 && (a.abs_value() == 0 || b.abs_value() == 0 ==> num == 0))
        by (nonlinear_arith)
        requires
            num == a.abs_value() * b.abs_value(),
            a.abs_value() >= 0,
            b.abs_value() >= 0,
    ;
    let unit = pow2(149) as int;
    assert(magnitude_of(0) * unit == 0) by (nonlinear_arith)
        requires
            magnitude_of(0) == 0,
    ;
    law_rounding_keeps_exact(0, unit);
    lemma_rounded(a.negative() != b.negative(), num, pow2(149) as int);
    law_product_is_accurate(a, b);
}

/// The way that is gone to a crossing is the exact way there, but for rounding.
proof fn lemma_way_gone(exact: int, way: Single, inverse: Single, direction: Single)
    requires
        !way.nan(),
        !way.infinite(),
        0x100_0000 * distance(exact, way.value()) <= way.abs_value(),
        inverse.normal(),
        inverse.negative() == direction.negative(),
        close(pow2(149) as int * pow2(149) as int, inverse.abs_value() * direction.abs_value()),
        !direction.nan(),
        !direction.infinite(),
        way.value() == 0 || (way.product(inverse).normal() && direction.product(
            way.product(inverse),
        ).normal()),
    ensures
        ({
            let gone = direction.product(way.product(inverse));
            &&& !gone.nan()
            &&& !gone.infinite()
            &&& 0x100_0000 * distance(exact, gone.value()) <= 5 * gone.abs_value()
        }),
{
    let t = way.product(inverse);
    let gone = direction.product(t);
    lemma_regular_product(way, inverse);
    lemma_regular_product(direction, t);
    lemma_pow2_pos(149);
    lemma_zero(way);
    lemma_zero(direction);
    lemma_zero(gone);
    let size = if way.negative() { -exact } else { exact };
    assert(close(size, way.abs_value()));
    lemma_way_there(
        size,
        way.abs_value(),
        inverse.abs_value(),
        direction.abs_value(),
        t.abs_value(),
        gone.abs_value(),
        pow2(149) as int,
    );
}

/// The inverse of a direction has the direction's sign, and is the inverse but for rounding.
proof fn lemma_inverse(direction: Single)
    requires
        !direction.nan(),
        !direction.infinite(),
        direction.value() != 0,
        (Single { bits: ONE }).quotient(direction).normal(),
    ensures
        ({
            let inverse = (Single { bits: ONE }).quotient(direction);
            &&& inverse.negative() == direction.negative()
            &&& close(
                pow2(149) as int * pow2(149) as int,
                inverse.abs_value() * direction.abs_value(),
            )
        }),
{
    let one = Single { bits: ONE };
    assert(one.abs_value() == pow2(149)) by {
        lemma2_to64();
        lemma_pow2_adds(23, 126);
        law_value_of_fields(one, 127, 0);
    }
    law_quotient_sign(one, direction);
    law_quotient_is_accurate(one, direction);
}

/// The way that is gone to the crossing of a plane is the way to the plane, but for rounding.
#[verifier::rlimit(40)]
#[verifier::spinoff_prover]
proof fn lemma_way_to_plane(origin: Single, direction: Single, plane: Single)
    requires
        reaches_plane(origin, direction, plane),
    ensures
        ({
            let inverse = (Single { bits: ONE }).quotient(direction);
            let gone = direction.product(plane.difference(origin).product(inverse));
            &&& !gone.nan()
            &&& !gone.infinite()
            &&& 0x100_0000 * distance(plane.value() - origin.value(), gone.value()) <= 5
                * gone.abs_value()
        }),
{
    reveal(reaches_plane);
    let inverse = (Single { bits: ONE }).quotient(direction);
    let way = plane.difference(origin);
    let exact = plane.value() - origin.value();
    law_difference_is_accurate(plane, origin);
    lemma_inverse(direction);
    lemma_way_gone(exact, way, inverse, direction);
}

/// The coordinate at the crossing of a plane.
#[verifier::opaque]
spec fn coordinate_at(origin: Single, direction: Single, plane: Single) -> Single {
    let inverse = (Single { bits: ONE }).quotient(direction);
    origin.sum(direction.product(plane.difference(origin).product(inverse)))
}

/// A coordinate is that of a plane, but for rounding: it is off by at most one part in 2^21
/// of the distances of the plane and of the ray's origin from the centre.
pub open spec fn on_plane(coordinate: Single, plane: Single, origin: Single) -> bool {
    &&& !coordinate.nan()
    &&& 0x20_0000 * distance(coordinate.value(), plane.value()) <= plane.abs_value()
        + origin.abs_value()
}

/// The crossing of a plane is on the plane, but for rounding.
proof fn lemma_crossing_is_on_plane(origin: Single, direction: Single, plane: Single)
    requires
        reaches_plane(origin, direction, plane),
    ensures
        on_plane(coordinate_at(origin, direction, plane), plane, origin),
{
    reveal(coordinate_at);
    reveal(reaches_plane);
    let inverse = (Single { bits: ONE }).quotient(direction);
    let gone = direction.product(plane.difference(origin).product(inverse));
    lemma_way_to_plane(origin, direction, plane);
    law_sum_is_accurate(origin, gone);
    lemma_zero(gone);
    lemma_zero(origin.sum(gone));
    lemma_zero(origin);
    lemma_zero(plane);
}

/// The coordinate of a face along its axis.
pub open spec fn plane_of(half: Single, positive: bool) -> Single {
    if positive {
        half
    } else {
        half.opposite()
    }
}

/// The parameter of the hit is that of the crossing of the named face's plane.
pub proof fn law_hit_is_crossing_of_named_face(axes: Seq<AxisRay>, k: int, positive: bool)
    requires
        axes.len() == 3,
        0 <= k < 3,
        hit_face(axes) == face_name(k, positive),
        !hit_time(axes).infinite(),
    ensures
        !axes[k].parallel(),
        hit_time(axes) == if positive { axes[k].high_crossing } else { axes[k].low_crossing },
        entry_time(axes).value() >= 0 ==> entry_axis(axes) == Some(k) && axes[k].from_high()
            == positive,
        entry_time(axes).value() < 0 ==> exit_axis(axes) == Some(k) && axes[k].from_high()
            != positive,
{
    if entry_time(axes).value() >= 0 {
        match entry_axis(axes) {
            Some(j) => {
                assert(entered_last(axes, 3, j));
                law_face_names_differ(j, axes[j].from_high(), k, positive);
            },
            None => {
                assert((Single { bits: NEG_INFINITY }).infinite());
            },
        }
    } else {
        match exit_axis(axes) {
            Some(j) => {
                assert(left_first(axes, 3, j));
                law_face_names_differ(j, !axes[j].from_high(), k, positive);
            },
            None => {
                assert((Single { bits: INFINITY }).infinite());
            },
        }
    }
}

/// The coordinates at the crossings of a slab's planes.
proof fn lemma_crossings(origin: Single, direction: Single, half: Single)
    ensures
        ({
            let ray = AxisRay::along(origin, direction, half);
            &&& ray.coordinate(ray.high_crossing) == coordinate_at(origin, direction, half)
            &&& ray.coordinate(ray.low_crossing) == coordinate_at(
                origin,
                direction,
                half.opposite(),
            )
        }),
{
    reveal(coordinate_at);
}

proof fn lemma_axes_crossings(origin: Vec3, direction: Vec3, half: Single, k: int)
    requires
        0 <= k < 3,
    ensures
        ({
            let ray = axes_of(origin, direction, half)[k];
            &&& ray.coordinate(ray.high_crossing) == coordinate_at(ray.origin, ray.direction, half)
            &&& ray.coordinate(ray.low_crossing) == coordinate_at(
                ray.origin,
                ray.direction,
                half.opposite(),
            )
        }),
{
    if k == 0 {
        lemma_crossings(origin.x, direction.x, half);
    } else if k == 1 {
        lemma_crossings(origin.y, direction.y, half);
    } else {
        lemma_crossings(origin.z, direction.z, half);
    }
}

proof fn lemma_hit_point(axes: Seq<AxisRay>, k: int, positive: bool, half: Single)
    requires
        axes.len() == 3,
        0 <= k < 3,
        hit_face(axes) == face_name(k, positive),
        !hit_time(axes).infinite(),
        reaches_plane(axes[k].origin, axes[k].direction, plane_of(half, positive)),
        axes[k].coordinate(axes[k].high_crossing) == coordinate_at(
            axes[k].origin,
            axes[k].direction,
            half,
        ),
        axes[k].coordinate(axes[k].low_crossing) == coordinate_at(
            axes[k].origin,
            axes[k].direction,
            half.opposite(),
        ),
    ensures
        on_plane(axes[k].coordinate(hit_time(axes)), plane_of(half, positive), axes[k].origin),
{
    let plane = plane_of(half, positive);
    law_hit_is_crossing_of_named_face(axes, k, positive);
    lemma_crossing_is_on_plane(axes[k].origin, axes[k].direction, plane);
}

/// The point of a hit lies on the face that is named, but for rounding.
#[verifier::rlimit(40)]
#[verifier::spinoff_prover]
pub proof fn law_hit_point_is_on_named_face(
    origin: Vec3,
    direction: Vec3,
    half: Single,
    k: int,
    positive: bool,
)
    requires
        ({
            let axes = axes_of(origin, direction, half);
            &&& 0 <= k < 3
            &&& hits(axes, half)
            &&& hit_face(axes) == face_name(k, positive)
            &&& !hit_time(axes).infinite()
            &&& reaches_plane(axes[k].origin, axes[k].direction, plane_of(half, positive))
        }),
    ensures
        ({
            let axes = axes_of(origin, direction, half);
            on_plane(
                axes[k].coordinate(hit_time(axes)),
                plane_of(half, positive),
                axes[k].origin,
            )
        }),
{
    let axes = axes_of(origin, direction, half);
    lemma_axes_crossings(origin, direction, half, k);
    lemma_hit_point(axes, k, positive, half);
}

/// The parameter of a hit lies between those at which the ray enters and leaves each slab.
proof fn lemma_hit_is_between(axes: Seq<AxisRay>, half: Single, i: int)
    requires
        0 <= i < axes.len(),
        hits(axes, half),
        !axes[i].parallel(),
        axes[i].entry().finite(),
        axes[i].exit().finite(),
    ensures
        !hit_time(axes).nan(),
        axes[i].entry().value() <= hit_time(axes).value() <= axes[i].exit().value(),
{
    lemma_times(axes);
    lemma_infinite(axes[i].entry());
    lemma_infinite(axes[i].exit());
    assert(axes[i].bounds_entry() && axes[i].bounds_exit());
}

/// The coordinate goes with the parameter, or against it, as the direction does.
proof fn lemma_coordinate_goes_with_parameter(ray: AxisRay, from: Single, to: Single)
    requires
        to.ge(from),
        !ray.coordinate(from).nan(),
        !ray.coordinate(to).nan(),
    ensures
        !ray.direction.negative() ==> ray.coordinate(from).value() <= ray.coordinate(to).value(),
        ray.direction.negative() ==> ray.coordinate(to).value() <= ray.coordinate(from).value(),
{
    let d = ray.direction;
    let (x, y) = (d.product(from), d.product(to));
    law_product_commutes(d, from);
    law_product_commutes(d, to);
    assert(!x.nan() && !y.nan());
    lemma_products_in_order(from, to, d);
    law_sum_commutes(ray.origin, x);
    law_sum_commutes(ray.origin, y);
    if d.negative() {
        law_sum_keeps_order(y, x, ray.origin);
    } else {
        law_sum_keeps_order(x, y, ray.origin);
    }
}

/// Between two parameters, a coordinate lies between those at the two.
proof fn lemma_coordinate_is_between(ray: AxisRay, from: Single, t: Single, to: Single)
    requires
        t.ge(from),
        to.ge(t),
        !ray.coordinate(from).nan(),
        !ray.coordinate(t).nan(),
        !ray.coordinate(to).nan(),
    ensures
        ({
            let (a, b, c) = (ray.coordinate(from), ray.coordinate(t), ray.coordinate(to));
            a.value() <= b.value() <= c.value() || c.value() <= b.value() <= a.value()
        }),
{
    lemma_coordinate_goes_with_parameter(ray, from, t);
    lemma_coordinate_goes_with_parameter(ray, t, to);
}

/// A coordinate lies between the planes of a slab, but for rounding: it is beyond one of them
/// by at most one part in 2^21 of the distances of the plane and of the ray's origin from the
/// centre.
pub open spec fn between_planes(coordinate: Single, half: Single, origin: Single) -> bool {
    &&& !coordinate.nan()
    &&& 0x20_0000 * (coordinate.value() - half.value()) <= half.abs_value() + origin.abs_value()
    &&& 0x20_0000 * (-half.value() - coordinate.value()) <= half.abs_value() + origin.abs_value()
}

proof fn lemma_between_planes(a: Single, there: Single, b: Single, half: Single, origin: Single)
    requires
        !half.nan(),
        half.value() >= 0,
        !there.nan(),
        on_plane(a, half, origin) && on_plane(b, half.opposite(), origin) || on_plane(
            b,
            half,
            origin,
        ) && on_plane(a, half.opposite(), origin),
        a.value() <= there.value() <= b.value() || b.value() <= there.value() <= a.value(),
    ensures
        between_planes(there, half, origin),
{
    lemma_zero(half);
    assert(half.opposite().low_bits() == half.low_bits());
    assert(half.opposite().value() == -half.value());
    assert(half.opposite().abs_value() == half.abs_value());
}

/// The coordinates at which a ray enters and leaves a slab are those of its planes, but for
/// rounding.
proof fn lemma_slab_ends(ray: AxisRay, half: Single)
    requires
        reaches_plane(ray.origin, ray.direction, half),
        reaches_plane(ray.origin, ray.direction, half.opposite()),
        ray.coordinate(ray.high_crossing) == coordinate_at(ray.origin, ray.direction, half),
        ray.coordinate(ray.low_crossing) == coordinate_at(
            ray.origin,
            ray.direction,
            half.opposite(),
        ),
    ensures
        ({
            let (a, b) = (ray.coordinate(ray.entry()), ray.coordinate(ray.exit()));
            ||| on_plane(a, half, ray.origin) && on_plane(b, half.opposite(), ray.origin)
            ||| on_plane(b, half, ray.origin) && on_plane(a, half.opposite(), ray.origin)
        }),
{
    lemma_crossing_is_on_plane(ray.origin, ray.direction, half);
    lemma_crossing_is_on_plane(ray.origin, ray.direction, half.opposite());
}

/// The coordinates at a slab's crossings are those that are computed for its planes.
spec fn crosses_planes(ray: AxisRay, half: Single) -> bool {
    &&& reaches_plane(ray.origin, ray.direction, half)
    &&& reaches_plane(ray.origin, ray.direction, half.opposite())
    &&& ray.coordinate(ray.high_crossing) == coordinate_at(ray.origin, ray.direction, half)
    &&& ray.coordinate(ray.low_crossing) == coordinate_at(
        ray.origin,
        ray.direction,
        half.opposite(),
    )
}

/// A point of the ray between entry and exit lies between the planes, but for rounding.
proof fn lemma_point_is_in_slab(ray: AxisRay, half: Single, t: Single)
    requires
        !half.nan(),
        half.value() >= 0,
        t.ge(ray.entry()),
        ray.exit().ge(t),
        !ray.coordinate(t).nan(),
        crosses_planes(ray, half),
    ensures
        between_planes(ray.coordinate(t), half, ray.origin),
{
    lemma_slab_ends(ray, half);
    lemma_coordinate_is_between(ray, ray.entry(), t, ray.exit());
    lemma_between_planes(
        ray.coordinate(ray.entry()),
        ray.coordinate(t),
        ray.coordinate(ray.exit()),
        half,
        ray.origin,
    );
}

proof fn lemma_hit_is_in_slab(axes: Seq<AxisRay>, half: Single, i: int)
    requires
        0 <= i < axes.len(),
        !half.nan(),
        half.value() >= 0,
        hits(axes, half),
        !axes[i].parallel(),
        axes[i].low_crossing.finite(),
        axes[i].high_crossing.finite(),
        !axes[i].coordinate(hit_time(axes)).nan(),
        crosses_planes(axes[i], half),
    ensures
        between_planes(axes[i].coordinate(hit_time(axes)), half, axes[i].origin),
{
    lemma_hit_is_between(axes, half, i);
    lemma_point_is_in_slab(axes[i], half, hit_time(axes));
}

proof fn lemma_point_of_slab(axes: Seq<AxisRay>, half: Single, t: Single, i: int)
    requires
        0 <= i < axes.len(),
        !half.nan(),
        half.value() >= 0,
        in_cube(axes, half, t.value()),
        !t.nan(),
        !axes[i].parallel(),
        !axes[i].low_crossing.nan(),
        !axes[i].high_crossing.nan(),
        !axes[i].coordinate(t).nan(),
        crosses_planes(axes[i], half),
    ensures
        between_planes(axes[i].coordinate(t), half, axes[i].origin),
{
    assert(axes[i].admits(half, t.value()));
    lemma_point_is_in_slab(axes[i], half, t);
}

/// A point of the ray that counts as one in the cube lies between the planes of every slab that
/// the ray crosses, but for rounding.
#[verifier::rlimit(40)]
#[verifier::spinoff_prover]
pub proof fn law_point_in_cube_is_between_crossed_planes(
    origin: Vec3,
    direction: Vec3,
    half: Single,
    t: Single,
    i: int,
)
    requires
        ({
            let axes = axes_of(origin, direction, half);
            &&& 0 <= i < 3
            &&& !half.nan()
            &&& half.value() >= 0
            &&& !t.nan()
            &&& in_cube(axes, half, t.value())
            &&& !axes[i].parallel()
            &&& !axes[i].low_crossing.nan()
            &&& !axes[i].high_crossing.nan()
            &&& !axes[i].coordinate(t).nan()
            &&& reaches_plane(axes[i].origin, axes[i].direction, half)
            &&& reaches_plane(axes[i].origin, axes[i].direction, half.opposite())
        }),
    ensures
        ({
            let axes = axes_of(origin, direction, half);
            between_planes(axes[i].coordinate(t), half, axes[i].origin)
        }),
{
    lemma_axes_crossings(origin, direction, half, i);
    lemma_point_of_slab(axes_of(origin, direction, half), half, t, i);
}

/// A coordinate lies between the planes of a slab by more than rounding may take.
pub open spec fn well_between_planes(coordinate: Single, half: Single, origin: Single) -> bool {
    &&& !coordinate.nan()
    &&& 0x20_0000 * (half.value() - coordinate.value()) > half.abs_value() + origin.abs_value()
    &&& 0x20_0000 * (coordinate.value() + half.value()) > half.abs_value() + origin.abs_value()
}

/// What is beyond a slab's end along the ray is not well between its planes.
proof fn lemma_beyond_end(
    there: Single,
    near: Single,
    far: Single,
    half: Single,
    origin: Single,
)
    requires
        !half.nan(),
        half.value() >= 0,
        !there.nan(),
        on_plane(near, half, origin) && on_plane(far, half.opposite(), origin) || on_plane(
            far,
            half,
            origin,
        ) && on_plane(near, half.opposite(), origin),
        there.value() <= near.value() <= far.value() || far.value() <= near.value()
            <= there.value(),
    ensures
        !well_between_planes(there, half, origin),
{
    lemma_zero(half);
    assert(half.opposite().low_bits() == half.low_bits());
    assert(half.opposite().value() == -half.value());
    assert(half.opposite().abs_value() == half.abs_value());
}

proof fn lemma_well_inside_is_admitted(ray: AxisRay, half: Single, t: Single)
    requires
        !half.nan(),
        half.value() >= 0,
        !t.nan(),
        !ray.low_crossing.nan(),
        !ray.high_crossing.nan(),
        !ray.parallel(),
        crosses_planes(ray, half),
        well_between_planes(ray.coordinate(t), half, ray.origin),
    ensures
        ray.admits(half, t.value()),
{
    lemma_slab_ends(ray, half);
    let (entry, exit) = (ray.entry(), ray.exit());
    let (near, far) = (ray.coordinate(entry), ray.coordinate(exit));
    if t.value() < entry.value() {
        lemma_coordinate_is_between(ray, t, entry, exit);
        lemma_beyond_end(ray.coordinate(t), near, far, half, ray.origin);
    } else if exit.value() < t.value() {
        lemma_coordinate_is_between(ray, entry, exit, t);
        lemma_beyond_end(ray.coordinate(t), far, near, half, ray.origin);
    }
}

/// A point of the ray that lies well between the planes of a slab counts as one in the slab.
#[verifier::rlimit(40)]
#[verifier::spinoff_prover]
pub proof fn law_point_well_between_planes_is_in_slab(
    origin: Vec3,
    direction: Vec3,
    half: Single,
    t: Single,
    i: int,
)
    requires
        ({
            let axes = axes_of(origin, direction, half);
            &&& 0 <= i < 3
            &&& !half.nan()
            &&& half.value() >= 0
            &&& !t.nan()
            &&& !axes[i].parallel()
            &&& !axes[i].low_crossing.nan()
            &&& !axes[i].high_crossing.nan()
            &&& reaches_plane(axes[i].origin, axes[i].direction, half)
            &&& reaches_plane(axes[i].origin, axes[i].direction, half.opposite())
            &&& well_between_planes(axes[i].coordinate(t), half, axes[i].origin)
        }),
    ensures
        axes_of(origin, direction, half)[i].admits(half, t.value()),
{
    lemma_axes_crossings(origin, direction, half, i);
    lemma_well_inside_is_admitted(axes_of(origin, direction, half)[i], half, t);
}

/// The point of a hit lies between the planes of every slab that the ray crosses, but for
/// rounding.
#[verifier::rlimit(40)]
#[verifier::spinoff_prover]
pub proof fn law_hit_point_is_between_crossed_planes(
    origin: Vec3,
    direction: Vec3,
    half: Single,
    i: int,
)
    requires
        ({
            let axes = axes_of(origin, direction, half);
            &&& 0 <= i < 3
            &&& !half.nan()
            &&& half.value() >= 0
            &&& hits(axes, half)
            &&& !axes[i].parallel()
            &&& axes[i].low_crossing.finite()
            &&& axes[i].high_crossing.finite()
            &&& !axes[i].coordinate(hit_time(axes)).nan()
            &&& reaches_plane(axes[i].origin, axes[i].direction, half)
            &&& reaches_plane(axes[i].origin, axes[i].direction, half.opposite())
        }),
    ensures
        ({
            let axes = axes_of(origin, direction, half);
            between_planes(axes[i].coordinate(hit_time(axes)), half, axes[i].origin)
        }),
{
    lemma_axes_crossings(origin, direction, half, i);
    lemma_hit_is_in_slab(axes_of(origin, direction, half), half, i);
}

/// From a start that is not beyond a plane, a way leads no farther than the way from the plane.
proof fn lemma_way_up(o: Single, half: Single, way: Single)
    requires
        o.finite(),
        half.finite(),
        way.finite(),
        o.value() <= half.value(),
    ensures
        o.sum(way).value() <= half.sum(way.magnitude()).value(),
{
    let size = way.magnitude();
    lemma_zero(way);
    assert(size.low_bits() == way.low_bits() && !size.negative());
    law_finite_number_has_sums(o, way);
    law_finite_number_has_sums(half, way);
    law_finite_number_has_sums(half, size);
    law_sum_keeps_order(o, half, way);
    law_sum_commutes(half, way);
    law_sum_commutes(half, size);
    law_sum_keeps_order(way, size, half);
}

/// The same to both sides.
#[verifier::rlimit(40)]
#[verifier::spinoff_prover]
proof fn lemma_drift_is_bounded(o: Single, half: Single, way: Single)
    requires
        o.finite(),
        half.finite(),
        way.finite(),
        !o.lt(half.opposite()),
        !half.lt(o),
    ensures
        !o.sum(way).nan(),
        -half.sum(way.magnitude()).value() <= o.sum(way).value(),
        o.sum(way).value() <= half.sum(way.magnitude()).value(),
{
    lemma_opposite(half);
    lemma_opposite(o);
    lemma_opposite(way);
    law_finite_number_has_sums(o, way);
    lemma_way_up(o, half, way);
    lemma_way_up(o.opposite(), half, way.opposite());
    law_sum_goes_by_values(o, way, o.opposite(), way.opposite(), true);
}

/// Along a slab that the ray is parallel to, the point of a hit is no farther from the centre
/// than the slab's planes and the way that the ray goes along that axis.
pub proof fn law_hit_point_drifts_in_parallel_slab(
    axes: Seq<AxisRay>,
    half: Single,
    i: int,
    t: Single,
)
    requires
        0 <= i < axes.len(),
        !passes_by(axes, half),
        axes[i].parallel(),
        half.finite(),
        axes[i].origin.finite(),
        axes[i].direction.product(t).finite(),
    ensures
        ({
            let (there, way) = (axes[i].coordinate(t), axes[i].direction.product(t).magnitude());
            &&& !there.nan()
            &&& -half.sum(way).value() <= there.value() <= half.sum(way).value()
        }),
{
    assert(!axes[i].outside(half));
    lemma_drift_is_bounded(axes[i].origin, half, axes[i].direction.product(t));
}

/// Along one axis, a point of the ray keeps to the slab: between the planes that the ray
/// crosses, but for rounding. In a slab that the ray is parallel to, it drifts beyond the
/// planes by no more than the limit of what counts as parallel allows.
pub open spec fn keeps_to_slab(ray: AxisRay, half: Single, t: Single) -> bool {
    let there = ray.coordinate(t);
    let farthest = half.sum((Single { bits: PARALLEL_LIMIT }).product(t.magnitude()));
    if ray.parallel() {
        !there.nan() && -farthest.value() <= there.value() <= farthest.value()
    } else {
        between_planes(there, half, ray.origin)
    }
}

/// The limit of what counts as parallel lies between zero and one.
proof fn lemma_parallel_limit()
    ensures
        0 <= (Single { bits: PARALLEL_LIMIT }).value() <= pow2(149),
{
    let p = pow2(106) as int;
    lemma2_to64();
    lemma_pow2_pos(106);
    lemma_pow2_adds(106, 24);
    lemma_pow2_strictly_increases(130, 149);
    law_value_of_fields(Single { bits: PARALLEL_LIMIT }, 107, 0x6_37bd);
    assert(0 <= 0x86_37bd * p <= p * 0x100_0000) by (nonlinear_arith)
        requires
            p >= 0,
    ;
}

/// How far a ray goes along an axis that it counts as parallel to.
proof fn lemma_drift(direction: Single, t: Single)
    requires
        direction.magnitude().lt(Single { bits: PARALLEL_LIMIT }),
        t.finite(),
    ensures
        direction.product(t).finite(),
        (Single { bits: PARALLEL_LIMIT }).product(t.magnitude()).finite(),
        (Single { bits: PARALLEL_LIMIT }).product(t.magnitude()).value() >= direction.product(
            t,
        ).magnitude().value(),
{
    let limit = Single { bits: PARALLEL_LIMIT };
    let (d, size) = (direction.magnitude(), t.magnitude());
    lemma_zero(direction);
    lemma_zero(t);
    assert(d.low_bits() == direction.low_bits() && !d.negative());
    assert(size.low_bits() == t.low_bits() && !size.negative());
    assert(!d.nan() && !direction.nan() && !limit.nan());
    lemma_parallel_limit();
    lemma_infinite(direction);
    lemma_infinite(d);
    lemma_infinite(limit);
    law_product_with_fraction(size, limit);
    law_product_commutes(size, limit);
    law_product_with_fraction(t, direction);
    law_product_commutes(t, direction);
    law_product_with_fraction(size, d);
    law_product_commutes(size, d);
    law_product_keeps_order(d, limit, size);
    let way = direction.product(t);
    law_product_goes_by_values(
        direction,
        t,
        d,
        size,
        direction.negative(),
        t.negative(),
    );
    lemma_zero(way);
    lemma_zero(d.product(size));
    assert(way.magnitude().low_bits() == way.low_bits() && !way.magnitude().negative());
    lemma_same_magnitude(d.product(size), way);
    law_product_sign(d, size);
}

/// A longer way leads no less far from a plane.
proof fn lemma_longer_way(half: Single, way: Single, most: Single)
    requires
        half.finite(),
        most.ge(way),
    ensures
        half.sum(most).value() >= half.sum(way).value(),
{
    law_finite_number_has_sums(half, way);
    law_finite_number_has_sums(half, most);
    law_sum_commutes(half, way);
    law_sum_commutes(half, most);
    law_sum_keeps_order(way, most, half);
}

/// The way along a parallel axis leads no farther than the limit allows.
proof fn lemma_drift_from_plane(direction: Single, half: Single, t: Single)
    requires
        direction.magnitude().lt(Single { bits: PARALLEL_LIMIT }),
        half.finite(),
        t.finite(),
    ensures
        half.sum(direction.product(t).magnitude()).value() <= half.sum(
            (Single { bits: PARALLEL_LIMIT }).product(t.magnitude()),
        ).value(),
{
    let way = direction.product(t).magnitude();
    let most = (Single { bits: PARALLEL_LIMIT }).product(t.magnitude());
    lemma_drift(direction, t);
    lemma_longer_way(half, way, most);
}

proof fn lemma_drift_keeps_to_slab(ray: AxisRay, half: Single, t: Single, way: int)
    requires
        ray.parallel(),
        !ray.coordinate(t).nan(),
        -way <= ray.coordinate(t).value() <= way,
        way <= half.sum((Single { bits: PARALLEL_LIMIT }).product(t.magnitude())).value(),
    ensures
        keeps_to_slab(ray, half, t),
{
}

/// A hit in a slab that the ray is parallel to keeps to the slab.
#[verifier::rlimit(40)]
#[verifier::spinoff_prover]
pub(crate) proof fn lemma_hit_keeps_to_parallel_slab(
    axes: Seq<AxisRay>,
    half: Single,
    i: int,
    t: Single,
)
    requires
        0 <= i < axes.len(),
        !passes_by(axes, half),
        axes[i].parallel(),
        half.finite(),
        axes[i].origin.finite(),
        t.finite(),
    ensures
        keeps_to_slab(axes[i], half, t),
{
    let way = half.sum(axes[i].direction.product(t).magnitude()).value();
    lemma_drift(axes[i].direction, t);
    law_hit_point_drifts_in_parallel_slab(axes, half, i, t);
    lemma_drift_from_plane(axes[i].direction, half, t);
    lemma_drift_keeps_to_slab(axes[i], half, t, way);
}

/// Where the crossings are finite and some slab is crossed, the hit is at a finite parameter and
/// on a face of that name.
pub(crate) proof fn lemma_hit_is_finite(axes: Seq<AxisRay>, half: Single, j: int)
    requires
        axes.len() == 3,
        0 <= j < 3,
        !axes[j].parallel(),
        forall|i: int|
            0 <= i < 3 && !(#[trigger] axes[i]).parallel() ==> axes[i].low_crossing.finite()
                && axes[i].high_crossing.finite(),
    ensures
        hit_time(axes).finite(),
        exists|k: int, positive: bool|
            0 <= k < 3 && hit_face(axes) == #[trigger] face_name(k, positive),
{
    lemma_times(axes);
    lemma_infinite(axes[j].entry());
    lemma_infinite(axes[j].exit());
    assert(axes[j].bounds_entry() && axes[j].bounds_exit());
    assert(entry_axis(axes) is Some) by {
        lemma_infinite(Single { bits: NEG_INFINITY });
    }
    assert(exit_axis(axes) is Some) by {
        lemma_infinite(Single { bits: INFINITY });
    }
    if let Some(k) = entry_axis(axes) {
        assert(entered_last(axes, 3, k));
        assert(!axes[k].parallel());
        assert(face_name(k, axes[k].from_high()) == face_name(k, axes[k].from_high()));
    }
    if let Some(k) = exit_axis(axes) {
        assert(left_first(axes, 3, k));
        assert(!axes[k].parallel());
        assert(face_name(k, !axes[k].from_high()) == face_name(k, !axes[k].from_high()));
    }
}

} // verus!

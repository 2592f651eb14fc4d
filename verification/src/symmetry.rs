//! What a hit has from the cube's symmetry: a mirrored ray hits the mirrored point.
use crate::arithmetic::{
    flipped, law_product_goes_by_values, law_quotient_by_opposite, law_sum_goes_by_values,
    lemma_rounded, lemma_zero,
};
use crate::ray::{
    axes_of, entered_last, entries_alike, entry_axis, entry_time, exit_axis, exit_time,
    exits_alike, face_name, hit_face, hit_time, hits, left_first, lemma_same_entry,
    lemma_same_exit, lemma_times, passes_by, AxisRay, ONE,
};
use crate::single::Single;
use crate::surface::law_hit_is_crossing_of_named_face;
use crate::vector::Vec3;
use vstd::arithmetic::power2::{lemma_pow2_pos, pow2};
use vstd::prelude::*;

verus! {

/// The vector with one component turned over.
pub open spec fn mirrored(v: Vec3, axis: int) -> Vec3 {
    if axis == 0 {
        Vec3 { x: v.x.opposite(), y: v.y, z: v.z }
    } else if axis == 1 {
        Vec3 { x: v.x, y: v.y.opposite(), z: v.z }
    } else {
        Vec3 { x: v.x, y: v.y, z: v.z.opposite() }
    }
}

/// Two numbers have the same value, or none has a value.
pub open spec fn alike(a: Single, b: Single) -> bool {
    a.nan() == b.nan() && (!a.nan() ==> a.value() == b.value())
}

/// Along one axis, two rays are the mirror images of each other.
#[verifier::opaque]
spec fn mirrors(ray: AxisRay, other: AxisRay) -> bool {
    &&& other.origin == ray.origin.opposite()
    &&& other.direction == ray.direction.opposite()
    &&& alike(other.low_crossing, ray.high_crossing)
    &&& alike(other.high_crossing, ray.low_crossing)
}

proof fn lemma_opposite(x: Single)
    ensures
        x.opposite().opposite() == x,
        x.opposite().nan() == x.nan(),
        x.opposite().low_bits() == x.low_bits(),
        x.opposite().value() == -x.value(),
{
}

/// The way to the mirrored plane is mirrored.
proof fn lemma_mirrored_way(origin: Single, plane: Single)
    requires
        !origin.nan(),
        !plane.nan(),
    ensures
        ({
            let way = plane.difference(origin);
            let other = plane.opposite().difference(origin.opposite());
            &&& other.nan() == way.nan()
            &&& !way.nan() ==> other.value() == -way.value()
        }),
{
    lemma_opposite(origin);
    lemma_opposite(origin.opposite());
    lemma_opposite(plane);
    law_sum_goes_by_values(
        plane,
        origin.opposite(),
        plane.opposite(),
        origin.opposite().opposite(),
        true,
    );
}

/// The mirrored plane is crossed at the same parameter.
proof fn lemma_mirrored_crossing(way: Single, other: Single, inverse: Single, opposite: Single)
    requires
        other.nan() == way.nan(),
        !way.nan() ==> other.value() == -way.value(),
        !inverse.nan(),
        !opposite.nan(),
        opposite.value() == -inverse.value(),
    ensures
        alike(other.product(opposite), way.product(inverse)),
{
    if !way.nan() {
        law_product_goes_by_values(way, inverse, other, opposite, true, true);
    }
}

proof fn lemma_mirrored_ray(origin: Single, direction: Single, half: Single)
    requires
        !origin.nan(),
        !direction.nan(),
        !half.nan(),
    ensures
        mirrors(
            AxisRay::along(origin, direction, half),
            AxisRay::along(origin.opposite(), direction.opposite(), half),
        ),
{
    reveal(mirrors);
    let one = Single { bits: ONE };
    let (inverse, opposite) = (one.quotient(direction), one.quotient(direction.opposite()));
    law_quotient_by_opposite(one, direction);
    assert(!inverse.nan()) by {
        lemma_inverse_is_number(direction);
    }
    lemma_mirrored_way(origin, half);
    lemma_mirrored_crossing(
        half.difference(origin),
        half.opposite().difference(origin.opposite()),
        inverse,
        opposite,
    );
    lemma_mirrored_way(origin, half.opposite());
    lemma_opposite(half);
    lemma_mirrored_crossing(
        half.opposite().difference(origin),
        half.difference(origin.opposite()),
        inverse,
        opposite,
    );
}

/// Every direction has an inverse.
proof fn lemma_inverse_is_number(direction: Single)
    requires
        !direction.nan(),
    ensures
        !(Single { bits: ONE }).quotient(direction).nan(),
{
    let one = Single { bits: ONE };
    lemma_zero(one);
    lemma_zero(direction);
    if direction.finite() && direction.abs_value() != 0 {
        let num = one.abs_value() * pow2(149);
        lemma_pow2_pos(149);
        assert(num >= 0) by (nonlinear_arith)
            requires
                num == one.abs_value() * pow2(149),
                one.abs_value() >= 0,
                pow2(149) > 0,
        ;
        lemma_rounded(direction.negative(), num, direction.abs_value());
    }
}

/// Along one axis, two rays cross the slab at the same parameters; with `flip`, its planes in
/// the opposite order.
spec fn slab_alike(ray: AxisRay, other: AxisRay, half: Single, flip: bool) -> bool {
    &&& other.parallel() == ray.parallel()
    &&& other.outside(half) == ray.outside(half)
    &&& !ray.parallel() ==> {
        &&& other.from_high() == (ray.from_high() != flip)
        &&& alike(other.entry(), ray.entry())
        &&& alike(other.exit(), ray.exit())
    }
}

proof fn lemma_mirrored_slab(ray: AxisRay, other: AxisRay, half: Single)
    requires
        mirrors(ray, other),
        !half.nan(),
        !ray.origin.nan(),
        !ray.direction.nan(),
        has_crossings(ray),
    ensures
        slab_alike(ray, other, half, crosses_apart(ray)),
{
    reveal(mirrors);
    lemma_opposite(half);
    lemma_opposite(ray.origin);
    lemma_opposite(ray.direction);
}

spec fn slabs_alike(
    axes: Seq<AxisRay>,
    other: Seq<AxisRay>,
    half: Single,
    axis: Option<int>,
) -> bool {
    &&& axes.len() == 3
    &&& other.len() == 3
    &&& forall|i: int|
        0 <= i < 3 ==> slab_alike(#[trigger] axes[i], other[i], half, axis == Some(i))
}

/// Rays that cross the slabs at the same parameters enter and leave the same slabs.
proof fn lemma_same_slabs(
    axes: Seq<AxisRay>,
    other: Seq<AxisRay>,
    half: Single,
    axis: Option<int>,
)
    requires
        slabs_alike(axes, other, half, axis),
    ensures
        entry_axis(other) == entry_axis(axes),
        exit_axis(other) == exit_axis(axes),
        alike(entry_time(other), entry_time(axes)),
        alike(exit_time(other), exit_time(axes)),
        passes_by(other, half) == passes_by(axes, half),
{
    assert forall|i: int, j: int| 0 <= i < 3 && 0 <= j < 3 implies #[trigger] entries_alike(
        axes,
        other,
        i,
        j,
    ) by {
        assert(slab_alike(axes[i], other[i], half, axis == Some(i)));
        assert(slab_alike(axes[j], other[j], half, axis == Some(j)));
    }
    lemma_same_entry(axes, other);
    assert forall|i: int, j: int| 0 <= i < 3 && 0 <= j < 3 implies #[trigger] exits_alike(
        axes,
        other,
        i,
        j,
    ) by {
        assert(slab_alike(axes[i], other[i], half, axis == Some(i)));
        assert(slab_alike(axes[j], other[j], half, axis == Some(j)));
    }
    lemma_same_exit(axes, other);
    if let Some(k) = entry_axis(axes) {
        assert(entered_last(axes, 3, k));
        assert(slab_alike(axes[k], other[k], half, axis == Some(k)));
    }
    if let Some(k) = exit_axis(axes) {
        assert(left_first(axes, 3, k));
        assert(slab_alike(axes[k], other[k], half, axis == Some(k)));
    }
    assert forall|i: int| 0 <= i < 3 implies (#[trigger] axes[i]).parallel() == other[i].parallel()
        && axes[i].outside(half) == other[i].outside(half) by {
        assert(slab_alike(axes[i], other[i], half, axis == Some(i)));
    }
    if passes_by(axes, half) {
        let i = choose|i: int|
            0 <= i < axes.len() && (#[trigger] axes[i]).parallel() && axes[i].outside(half);
        assert(other[i].parallel() && other[i].outside(half));
    }
    if passes_by(other, half) {
        let i = choose|i: int|
            0 <= i < other.len() && (#[trigger] other[i]).parallel() && other[i].outside(half);
        assert(axes[i].parallel() && axes[i].outside(half));
    }
}

/// The face that such rays hit differs in the side, if it is one of the given axis.
proof fn lemma_same_face(
    axes: Seq<AxisRay>,
    other: Seq<AxisRay>,
    half: Single,
    axis: Option<int>,
    k: int,
    positive: bool,
)
    requires
        slabs_alike(axes, other, half, axis),
        entry_axis(other) == entry_axis(axes),
        exit_axis(other) == exit_axis(axes),
        entry_time(other).value() >= 0 <==> entry_time(axes).value() >= 0,
        0 <= k < 3,
        !hit_time(axes).infinite(),
        hit_face(axes) == face_name(k, positive),
    ensures
        hit_face(other) == face_name(k, positive != (axis == Some(k))),
{
    law_hit_is_crossing_of_named_face(axes, k, positive);
    assert(slab_alike(axes[k], other[k], half, axis == Some(k)));
}

/// Rays that cross the slabs at the same parameters hit the cube at the same one.
#[verifier::rlimit(40)]
#[verifier::spinoff_prover]
proof fn lemma_same_hit(
    axes: Seq<AxisRay>,
    other: Seq<AxisRay>,
    half: Single,
    axis: Option<int>,
)
    requires
        slabs_alike(axes, other, half, axis),
    ensures
        hits(other, half) == hits(axes, half),
        alike(hit_time(other), hit_time(axes)),
        !hit_time(axes).nan(),
        forall|k: int, positive: bool|
            0 <= k < 3 && !hit_time(axes).infinite() && hit_face(axes) == #[trigger] face_name(
                k,
                positive,
            ) ==> hit_face(other) == face_name(k, positive != (axis == Some(k))),
{
    lemma_times(axes);
    lemma_same_slabs(axes, other, half, axis);
    assert forall|k: int, positive: bool|
        0 <= k < 3 && !hit_time(axes).infinite() && hit_face(axes) == #[trigger] face_name(
            k,
            positive,
        ) implies hit_face(other) == face_name(k, positive != (axis == Some(k))) by {
        lemma_same_face(axes, other, half, axis, k, positive);
    }
}

/// A coordinate goes by the values of the ray and the parameter; mirrored, it is mirrored.
proof fn lemma_same_coordinate(
    ray: AxisRay,
    other: AxisRay,
    t: Single,
    other_t: Single,
    flip: bool,
)
    requires
        !ray.origin.nan(),
        !ray.direction.nan(),
        !t.nan(),
        alike(other_t, t),
        other.origin == if flip { ray.origin.opposite() } else { ray.origin },
        other.direction == if flip { ray.direction.opposite() } else { ray.direction },
    ensures
        ({
            let (there, other_there) = (ray.coordinate(t), other.coordinate(other_t));
            &&& other_there.nan() == there.nan()
            &&& !there.nan() ==> other_there.value() == flipped(there.value(), flip)
        }),
{
    lemma_opposite(ray.origin);
    lemma_opposite(ray.direction);
    law_product_goes_by_values(ray.direction, t, other.direction, other_t, flip, false);
    let (way, other_way) = (ray.direction.product(t), other.direction.product(other_t));
    if !way.nan() {
        law_sum_goes_by_values(ray.origin, way, other.origin, other_way, flip);
    }
}

/// The components of a vector are numbers.
pub open spec fn numeric(v: Vec3) -> bool {
    !v.x.nan() && !v.y.nan() && !v.z.nan()
}

/// The crossings of a slab's planes are numbers, where they are crossed.
pub open spec fn has_crossings(ray: AxisRay) -> bool {
    ray.parallel() || (!ray.low_crossing.nan() && !ray.high_crossing.nan())
}

/// The planes of a slab are crossed one after the other.
pub open spec fn crosses_apart(ray: AxisRay) -> bool {
    ray.low_crossing.value() != ray.high_crossing.value()
}

/// Two rays are the mirror images of each other along one axis, and the same along the others.
#[verifier::opaque]
spec fn mirror_images(axes: Seq<AxisRay>, other: Seq<AxisRay>, axis: int) -> bool {
    &&& axes.len() == 3
    &&& other.len() == 3
    &&& 0 <= axis < 3
    &&& forall|i: int|
        0 <= i < 3 ==> !(#[trigger] axes[i]).origin.nan() && !axes[i].direction.nan()
    &&& mirrors(axes[axis], other[axis])
    &&& forall|i: int| 0 <= i < 3 && i != axis ==> other[i] == #[trigger] axes[i]
}

/// A ray is a number along an axis.
#[verifier::opaque]
spec fn numeric_along(ray: AxisRay) -> bool {
    !ray.origin.nan() && !ray.direction.nan()
}

/// A ray along one axis, as it is, and the three of a ray: with names that hide how the
/// crossings are computed.
#[verifier::opaque]
spec fn ray_along(origin: Single, direction: Single, half: Single) -> AxisRay {
    AxisRay::along(origin, direction, half)
}

#[verifier::opaque]
spec fn rays_along(origin: Vec3, direction: Vec3, half: Single) -> Seq<AxisRay> {
    axes_of(origin, direction, half)
}

proof fn lemma_rays_along(origin: Vec3, direction: Vec3, half: Single)
    ensures
        rays_along(origin, direction, half) == seq![
            ray_along(origin.x, direction.x, half),
            ray_along(origin.y, direction.y, half),
            ray_along(origin.z, direction.z, half),
        ],
{
    reveal(ray_along);
    reveal(rays_along);
}

proof fn lemma_ray_along(origin: Single, direction: Single, half: Single)
    requires
        !origin.nan(),
        !direction.nan(),
        !half.nan(),
    ensures
        numeric_along(ray_along(origin, direction, half)),
        mirrors(
            ray_along(origin, direction, half),
            ray_along(origin.opposite(), direction.opposite(), half),
        ),
{
    reveal(ray_along);
    reveal(numeric_along);
    lemma_mirrored_ray(origin, direction, half);
}

proof fn lemma_images(x: AxisRay, y: AxisRay, z: AxisRay, image: AxisRay)
    requires
        numeric_along(x),
        numeric_along(y),
        numeric_along(z),
    ensures
        mirrors(x, image) ==> mirror_images(seq![x, y, z], seq![image, y, z], 0),
        mirrors(y, image) ==> mirror_images(seq![x, y, z], seq![x, image, z], 1),
        mirrors(z, image) ==> mirror_images(seq![x, y, z], seq![x, y, image], 2),
{
    reveal(mirror_images);
    reveal(numeric_along);
}

#[verifier::rlimit(40)]
#[verifier::spinoff_prover]
proof fn lemma_mirror_images(origin: Vec3, direction: Vec3, half: Single, axis: int)
    requires
        0 <= axis < 3,
        !half.nan(),
        numeric(origin),
        numeric(direction),
    ensures
        mirror_images(
            rays_along(origin, direction, half),
            rays_along(mirrored(origin, axis), mirrored(direction, axis), half),
            axis,
        ),
{
    let x = ray_along(origin.x, direction.x, half);
    let y = ray_along(origin.y, direction.y, half);
    let z = ray_along(origin.z, direction.z, half);
    let (o, d) = (mirrored(origin, axis), mirrored(direction, axis));
    lemma_rays_along(origin, direction, half);
    lemma_rays_along(o, d, half);
    lemma_ray_along(origin.x, direction.x, half);
    lemma_ray_along(origin.y, direction.y, half);
    lemma_ray_along(origin.z, direction.z, half);
    if axis == 0 {
        lemma_images(x, y, z, ray_along(o.x, d.x, half));
    } else if axis == 1 {
        lemma_images(x, y, z, ray_along(o.y, d.y, half));
    } else {
        lemma_images(x, y, z, ray_along(o.z, d.z, half));
    }
}

proof fn lemma_mirrored_slabs(axes: Seq<AxisRay>, other: Seq<AxisRay>, half: Single, axis: int)
    requires
        mirror_images(axes, other, axis),
        !half.nan(),
        has_crossings(axes[axis]),
    ensures
        slabs_alike(axes, other, half, if crosses_apart(axes[axis]) { Some(axis) } else { None }),
{
    reveal(mirror_images);
    assert forall|i: int| 0 <= i < 3 implies slab_alike(
        #[trigger] axes[i],
        other[i],
        half,
        i == axis && crosses_apart(axes[axis]),
    ) by {
        if i == axis {
            lemma_mirrored_slab(axes[i], other[i], half);
        }
    }
}

/// The point of a ray and that of its mirror image, up to the signs of zeros.
spec fn points_mirrored(
    axes: Seq<AxisRay>,
    other: Seq<AxisRay>,
    axis: int,
    t: Single,
    other_t: Single,
) -> bool {
    forall|i: int|
        0 <= i < 3 ==> {
            let there = (#[trigger] axes[i]).coordinate(t);
            let other_there = other[i].coordinate(other_t);
            &&& other_there.nan() == there.nan()
            &&& !there.nan() ==> other_there.value() == flipped(there.value(), i == axis)
        }
}

proof fn lemma_mirrored_points(
    axes: Seq<AxisRay>,
    other: Seq<AxisRay>,
    axis: int,
    t: Single,
    other_t: Single,
)
    requires
        mirror_images(axes, other, axis),
        !t.nan(),
        alike(other_t, t),
    ensures
        points_mirrored(axes, other, axis, t, other_t),
{
    reveal(mirror_images);
    assert forall|i: int| 0 <= i < 3 implies {
        let there = (#[trigger] axes[i]).coordinate(t);
        let other_there = other[i].coordinate(other_t);
        &&& other_there.nan() == there.nan()
        &&& !there.nan() ==> other_there.value() == flipped(there.value(), i == axis)
    } by {
        reveal(mirrors);
        lemma_same_coordinate(axes[i], other[i], t, other_t, i == axis);
    }
}

/// A ray that is mirrored along one axis hits the cube where the ray itself does: in the
/// mirrored point, and on the face on the other side, if the face is one of that axis. The
/// two points may differ in the sign of a zero. Where the two planes of the axis are crossed
/// at once, rounding has taken the order from them, and the face keeps its side.
#[verifier::rlimit(40)]
#[verifier::spinoff_prover]
pub proof fn law_mirrored_ray_hits_mirrored_point(
    origin: Vec3,
    direction: Vec3,
    half: Single,
    axis: int,
)
    requires
        0 <= axis < 3,
        !half.nan(),
        numeric(origin),
        numeric(direction),
        has_crossings(axes_of(origin, direction, half)[axis]),
    ensures
        ({
            let axes = axes_of(origin, direction, half);
            let other = axes_of(mirrored(origin, axis), mirrored(direction, axis), half);
            &&& hits(other, half) == hits(axes, half)
            &&& forall|i: int|
                0 <= i < 3 ==> {
                    let there = (#[trigger] axes[i]).coordinate(hit_time(axes));
                    let other_there = other[i].coordinate(hit_time(other));
                    &&& other_there.nan() == there.nan()
                    &&& !there.nan() ==> other_there.value() == flipped(there.value(), i == axis)
                }
            &&& forall|k: int, positive: bool|
                0 <= k < 3 && !hit_time(axes).infinite() && hit_face(axes) == #[trigger] face_name(
                    k,
                    positive,
                ) ==> hit_face(other) == face_name(
                    k,
                    positive != (k == axis && crosses_apart(axes[axis])),
                )
        }),
{
    let axes = axes_of(origin, direction, half);
    let other = axes_of(mirrored(origin, axis), mirrored(direction, axis), half);
    lemma_mirror_images(origin, direction, half, axis);
    assert(axes == rays_along(origin, direction, half) && other == rays_along(
        mirrored(origin, axis),
        mirrored(direction, axis),
        half,
    )) by {
        reveal(rays_along);
    }
    lemma_mirrored_slabs(axes, other, half, axis);
    let turned = if crosses_apart(axes[axis]) { Some(axis) } else { None };
    lemma_same_hit(axes, other, half, turned);
    lemma_mirrored_points(axes, other, axis, hit_time(axes), hit_time(other));
}

} // verus!

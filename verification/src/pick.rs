//! What was picked, and the marker that shows it.
use crate::accuracy::{
    distance, lemma_inverse_range, lemma_product_range, lemma_rounded_range, ranges,
};
use crate::arithmetic::{
    law_difference_goes_with_order, law_finite_number_has_sums, law_product_commutes,
    law_product_sign, law_product_with_zero, law_small_term_does_not_overflow, law_sum_commutes,
    lemma_zero,
};
use crate::ray::{
    axes_of, face_name, hit_face, hit_time, hits, point_at, ray_cube_hit, AxisRay, ONE,
    PARALLEL_LIMIT,
};
use crate::rounding::lemma_encoding;
use crate::single::{law_magnitude_increases, law_value_of_fields, magnitude_of, Single};
use crate::surface::{
    keeps_to_slab, law_hit_is_crossing_of_named_face, law_hit_point_is_between_crossed_planes,
    law_hit_point_is_on_named_face, lemma_hit_is_finite, lemma_hit_keeps_to_parallel_slab,
    on_plane, plane_of, reaches_plane,
};
use crate::transform::Transform;
use crate::vector::Vec3;
use vstd::arithmetic::power2::{
    lemma2_to64, lemma_pow2_adds, lemma_pow2_pos, lemma_pow2_strictly_increases, pow2,
};
use vstd::prelude::*;

verus! {

/// The bits of 0.75: half the edge length of the cube that is picked on.
pub const CUBE_HALF: u32 = 0x3f40_0000;

/// Whether something is drawn.
#[derive(Clone, Copy, PartialEq, Eq, Structural, Debug)]
pub enum Visibility {
    /// As its parent is.
    Inherited,
    Hidden,
    Visible,
}

/// The state of a marker.
#[derive(Clone, Copy, PartialEq, Eq, Structural, Debug)]
pub struct Marker {
    /// The marker's pose in the cube's coordinates.
    pub transform: Transform,
    pub visibility: Visibility,
}

/// The point that was picked last, in the cube's coordinates.
#[derive(Clone, Copy, PartialEq, Eq, Structural, Debug)]
pub struct Pick {
    pub point: Option<Vec3>,
}

/// What the page is told of a pick: the face and the point.
#[derive(Clone, Debug)]
pub struct PickResult {
    pub face: String,
    pub x: Single,
    pub y: Single,
    pub z: Single,
}

/// The ray, given by its origin and direction in the cube's coordinates, meets the cube.
pub open spec fn meets_cube(origin: Vec3, direction: Vec3) -> bool {
    let half = Single { bits: CUBE_HALF };
    hits(axes_of(origin, direction, half), half)
}

/// Where the ray meets the cube.
pub open spec fn meeting_point(origin: Vec3, direction: Vec3) -> Vec3 {
    let axes = axes_of(origin, direction, Single { bits: CUBE_HALF });
    point_at(axes, hit_time(axes))
}

/// The name of the face on which the ray meets the cube.
pub open spec fn meeting_face(origin: Vec3, direction: Vec3) -> Seq<char> {
    hit_face(axes_of(origin, direction, Single { bits: CUBE_HALF }))
}

/// The point that a click picks, given the ray that belongs to it. Without a ray, and
/// where the ray misses the cube, it picks none.
pub open spec fn picked_point(ray: Option<(Vec3, Vec3)>) -> Option<Vec3> {
    match ray {
        Some((origin, direction)) => if meets_cube(origin, direction) {
            Some(meeting_point(origin, direction))
        } else {
            None
        },
        None => None,
    }
}

impl Pick {
    /// Before the first pick.
    pub open spec fn initial() -> Pick {
        Pick { point: None }
    }

    /// After a pick that hit a point, or nothing.
    pub open spec fn after(self, hit: Option<Vec3>) -> Pick {
        if hit is Some {
            Pick { point: hit }
        } else {
            self
        }
    }

    /// After a run of picks.
    pub open spec fn after_all(self, hits: Seq<Option<Vec3>>) -> Pick
        decreases hits.len(),
    {
        if hits.len() == 0 {
            self
        } else {
            self.after_all(hits.drop_last()).after(hits.last())
        }
    }

    /// What becomes of a marker: it goes to the point that was picked and is shown. Before
    /// the first pick it stays where it is, hidden. Its rotation and scale stay as they are.
    pub open spec fn marked(self, marker: Marker) -> Marker {
        match self.point {
            Some(point) => Marker {
                transform: Transform {
                    translation: point,
                    rotation: marker.transform.rotation,
                    scale: marker.transform.scale,
                },
                visibility: Visibility::Visible,
            },
            None => Marker { transform: marker.transform, visibility: Visibility::Hidden },
        }
    }

    /// Picks the point where a ray meets the cube, and reports the point and the face. The
    /// ray is given by its origin and direction in the cube's coordinates. A click without a
    /// ray, or with one that misses the cube, changes nothing.
    pub fn pick(&mut self, ray: Option<(Vec3, Vec3)>) -> (r: Option<PickResult>)
        ensures
            *final(self) == old(self).after(picked_point(ray)),
            r is Some <==> picked_point(ray) is Some,
            r matches Some(report) ==> {
                &&& ray matches Some((origin, direction))
                &&& report.face@ == meeting_face(origin, direction)
                &&& (Vec3 { x: report.x, y: report.y, z: report.z }) == meeting_point(
                    origin,
                    direction,
                )
            },
    {
        match ray {
            Some((origin, direction)) => match ray_cube_hit(
                origin,
                direction,
                Single::from_bits(CUBE_HALF),
            ) {
                Some((point, face)) => {
                    self.point = Some(point);
                    Some(PickResult { face: face.to_owned(), x: point.x, y: point.y, z: point.z })
                },
                None => None,
            },
            None => None,
        }
    }

    /// Brings the markers to the point that was picked.
    pub fn apply_pick(&self, markers: &mut Vec<Marker>)
        ensures
            final(markers)@ == old(markers)@.map_values(|marker: Marker| self.marked(marker)),
    {
        let mut index: usize = 0;
        while index < markers.len()
            invariant
                index <= markers.len(),
                markers.len() == old(markers).len(),
                forall|i: int|
                    0 <= i < index ==> #[trigger] markers@[i] == self.marked(old(markers)@[i]),
                forall|i: int|
                    index <= i < markers.len() ==> #[trigger] markers@[i] == old(markers)@[i],
            decreases markers.len() - index,
        {
            let mut marker = markers[index];
            match self.point {
                Some(point) => {
                    marker.transform.translation = point;
                    marker.visibility = Visibility::Visible;
                },
                None => {
                    marker.visibility = Visibility::Hidden;
                },
            }
            markers.set(index, marker);
            index = index + 1;
        }
    }
}

impl Default for Pick {
    fn default() -> (r: Pick)
        ensures
            r == Pick::initial(),
    {
        Pick { point: None }
    }
}

/// A face's distance from the centre of the cube, as a multiple of 2^-149.
pub(crate) proof fn lemma_cube_half()
    ensures
        (Single { bits: CUBE_HALF }).value() == 0x180_0000 * pow2(124),
        (Single { bits: CUBE_HALF }).finite(),
        pow2(124) > 0,
        pow2(170) == 2 * pow2(169),
        0x180_0000 * pow2(124) <= pow2(169),
{
    lemma2_to64();
    lemma_pow2_pos(124);
    lemma_pow2_adds(124, 1);
    lemma_pow2_adds(169, 1);
    lemma_pow2_adds(124, 32);
    lemma_pow2_strictly_increases(156, 169);
    law_value_of_fields(Single { bits: CUBE_HALF }, 126, 0x40_0000);
}

/// Every magnitude from 0.375 on is a multiple of 2^-25.
proof fn lemma_multiple(low_bits: int) -> (c: int)
    requires
        0x3ec0_0000 <= low_bits,
    ensures
        magnitude_of(low_bits) == c * pow2(124),
{
    let (exponent, fraction) = (low_bits / 0x80_0000, low_bits % 0x80_0000);
    let (m, q) = (0x80_0000 + fraction, pow2((exponent - 125) as nat) as int);
    lemma_pow2_adds((exponent - 125) as nat, 124);
    assert(m * (q * pow2(124)) == (m * q) * pow2(124)) by (nonlinear_arith);
    m * q
}

/// The way from a point to the plane of a face is nothing, or neither tiny nor huge.
proof fn lemma_way_to_face(origin: Single, plane: int)
    requires
        origin.finite(),
        origin.abs_value() <= pow2(169),
        plane == (Single { bits: CUBE_HALF }).value() || plane == -(Single {
            bits: CUBE_HALF,
        }).value(),
        plane != origin.value(),
    ensures
        pow2(124) <= distance(plane, origin.value()) <= pow2(170),
{
    let unit = pow2(124) as int;
    lemma_cube_half();
    lemma_zero(origin);
    let low = 0x3ec0_0000int;
    assert(magnitude_of(low) == 0xc0_0000 * unit) by {
        lemma_encoding(124, 0xc0_0000);
    }
    if origin.low_bits() < low {
        law_magnitude_increases(origin.low_bits(), low);
    } else {
        let c = lemma_multiple(origin.low_bits());
        let n: int = if origin.negative() { -c } else { c };
        let h: int = if plane >= 0 { 0x180_0000 } else { -0x180_0000 };
        assert(origin.value() == n * unit) by (nonlinear_arith)
            requires
                origin.value() == c * unit && n == c || origin.value() == -(c * unit) && n == -c,
        ;
        assert(plane == h * unit);
        let gap = h - n;
        assert(plane - origin.value() == gap * unit) by (nonlinear_arith)
            requires
                plane == h * unit,
                origin.value() == n * unit,
                gap == h - n,
        ;
        assert(gap != 0) by (nonlinear_arith)
            requires
                gap * unit != 0,
        ;
        assert(gap * unit >= unit || gap * unit <= -unit) by (nonlinear_arith)
            requires
                gap != 0,
                unit > 0,
        ;
    }
}

/// The difference of a plane and a point has the range of the exact one.
proof fn lemma_way_range(plane: Single, origin: Single)
    requires
        plane.finite(),
        origin.finite(),
        plane.value() == origin.value() || pow2(124) <= distance(plane.value(), origin.value())
            <= pow2(170),
    ensures
        plane.difference(origin).finite(),
        plane.difference(origin).value() == 0 || ranges(plane.difference(origin), 124, 170),
{
    let total = plane.value() - origin.value();
    assert(origin.opposite().low_bits() == origin.low_bits());
    assert(origin.opposite().value() == -origin.value());
    if total == 0 {
        lemma_zero(plane.difference(origin));
    } else {
        let num = if total < 0 { -total } else { total };
        lemma_rounded_range(total < 0, num, 1, 124, 170);
    }
}

/// A ray that starts within 2^20 of the centre along an axis, and whose direction there is not
/// a parallel one nor longer than 2^20, reaches the planes of the cube's faces without
/// overflow or underflow.
pub(crate) proof fn lemma_face_is_reached(origin: Single, direction: Single, positive: bool)
    requires
        origin.finite(),
        origin.abs_value() <= pow2(169),
        direction.finite(),
        !direction.magnitude().lt(Single { bits: PARALLEL_LIMIT }),
        direction.abs_value() <= pow2(169),
    ensures
        reaches_plane(origin, direction, plane_of(Single { bits: CUBE_HALF }, positive)),
{
    reveal(reaches_plane);
    let half = Single { bits: CUBE_HALF };
    let plane = plane_of(half, positive);
    lemma_cube_half();
    lemma_zero(origin);
    lemma_zero(direction);
    assert(half.opposite().low_bits() == half.low_bits());
    assert(half.opposite().value() == -half.value());
    assert(pow2(129) <= direction.abs_value()) by {
        let limit = Single { bits: PARALLEL_LIMIT };
        lemma2_to64();
        lemma_pow2_adds(23, 106);
        lemma_pow2_pos(106);
        law_value_of_fields(limit, 107, 0x6_37bd);
    }
    lemma_pow2_pos(129);
    let inverse = (Single { bits: ONE }).quotient(direction);
    let way = plane.difference(origin);
    if plane.value() != origin.value() {
        lemma_way_to_face(origin, plane.value());
    }
    lemma_inverse_range(direction, 129, 169);
    lemma_way_range(plane, origin);
    lemma_steps_are_normal(origin, direction, way, inverse);
}

proof fn lemma_steps_are_normal(
    origin: Single,
    direction: Single,
    way: Single,
    inverse: Single,
)
    requires
        origin.finite(),
        direction.finite(),
        way.finite(),
        inverse.finite(),
        ranges(direction, 129, 169),
        ranges(inverse, 129, 169),
        way.value() == 0 || ranges(way, 124, 170),
    ensures
        ({
            let t = way.product(inverse);
            let gone = direction.product(t);
            &&& way.value() == 0 || (t.normal() && gone.normal())
            &&& !origin.sum(gone).infinite()
        }),
{
    let t = way.product(inverse);
    let gone = direction.product(t);
    lemma_pow2_pos(253);
    if way.value() == 0 {
        lemma_zero(way);
        law_product_with_zero(way, inverse);
        law_product_with_zero(t, direction);
        law_product_commutes(t, direction);
        lemma_zero(t);
        lemma_zero(gone);
    } else {
        lemma_product_range(way, inverse, 124, 170, 129, 169);
        lemma_product_range(direction, t, 129, 169, 104, 190);
        lemma2_to64();
        lemma_pow2_adds(210, 1);
        lemma_pow2_strictly_increases(211, 253);
    }
    law_sum_commutes(origin, gone);
    law_small_term_does_not_overflow(gone, origin);
}

/// Along one axis, a ray starts within 2^20 of the cube's centre, and its direction is not
/// longer than 2^20.
pub open spec fn moderate(origin: Single, direction: Single) -> bool {
    &&& origin.finite() && origin.abs_value() <= pow2(169)
    &&& direction.finite() && direction.abs_value() <= pow2(169)
}

/// The point that a click picks lies on the face that is reported, but for rounding.
#[verifier::rlimit(40)]
#[verifier::spinoff_prover]
pub proof fn law_picked_point_is_on_reported_face(
    origin: Vec3,
    direction: Vec3,
    k: int,
    positive: bool,
)
    requires
        ({
            let axes = axes_of(origin, direction, Single { bits: CUBE_HALF });
            &&& 0 <= k < 3
            &&& meets_cube(origin, direction)
            &&& meeting_face(origin, direction) == face_name(k, positive)
            &&& !hit_time(axes).infinite()
            &&& moderate(origin.along(k), direction.along(k))
        }),
    ensures
        on_plane(
            meeting_point(origin, direction).along(k),
            plane_of(Single { bits: CUBE_HALF }, positive),
            origin.along(k),
        ),
{
    let half = Single { bits: CUBE_HALF };
    let axes = axes_of(origin, direction, half);
    law_hit_is_crossing_of_named_face(axes, k, positive);
    lemma_face_is_reached(axes[k].origin, axes[k].direction, positive);
    law_hit_point_is_on_named_face(origin, direction, half, k, positive);
}

/// The crossings of the planes of the cube's faces are finite.
pub(crate) proof fn lemma_crossings_are_finite(origin: Single, direction: Single)
    requires
        moderate(origin, direction),
        !direction.magnitude().lt(Single { bits: PARALLEL_LIMIT }),
    ensures
        ({
            let ray = AxisRay::along(origin, direction, Single { bits: CUBE_HALF });
            ray.low_crossing.finite() && ray.high_crossing.finite()
        }),
{
    let half = Single { bits: CUBE_HALF };
    lemma_face_is_reached(origin, direction, true);
    lemma_face_is_reached(origin, direction, false);
    lemma_reached_at_finite_parameter(origin, direction, half);
    lemma_reached_at_finite_parameter(origin, direction, half.opposite());
}

pub(crate) proof fn lemma_reached_at_finite_parameter(
    origin: Single,
    direction: Single,
    plane: Single,
)
    requires
        reaches_plane(origin, direction, plane),
    ensures
        plane.difference(origin).product((Single { bits: ONE }).quotient(direction)).finite(),
{
    reveal(reaches_plane);
    let way = plane.difference(origin);
    let inverse = (Single { bits: ONE }).quotient(direction);
    law_difference_goes_with_order(plane, origin);
    if way.value() == 0 {
        law_product_with_zero(way, inverse);
    }
}

/// A crossed slab of a moderate ray: its crossings are finite.
#[verifier::opaque]
spec fn crossed_finitely(ray: AxisRay) -> bool {
    ray.parallel() || (ray.low_crossing.finite() && ray.high_crossing.finite())
}

proof fn lemma_crossed_finitely(origin: Single, direction: Single)
    requires
        moderate(origin, direction),
    ensures
        crossed_finitely(AxisRay::along(origin, direction, Single { bits: CUBE_HALF })),
{
    reveal(crossed_finitely);
    if !direction.magnitude().lt(Single { bits: PARALLEL_LIMIT }) {
        lemma_crossings_are_finite(origin, direction);
    }
}

proof fn lemma_axes_crossed_finitely(origin: Vec3, direction: Vec3, i: int)
    requires
        0 <= i < 3,
        moderate(origin.along(i), direction.along(i)),
    ensures
        ({
            let ray = axes_of(origin, direction, Single { bits: CUBE_HALF })[i];
            &&& crossed_finitely(ray)
            &&& ray.origin == origin.along(i)
            &&& ray.direction == direction.along(i)
        }),
{
    if i == 0 {
        lemma_crossed_finitely(origin.x, direction.x);
    } else if i == 1 {
        lemma_crossed_finitely(origin.y, direction.y);
    } else {
        lemma_crossed_finitely(origin.z, direction.z);
    }
}

proof fn lemma_picked_at_finite_parameter(axes: Seq<AxisRay>, half: Single, j: int)
    requires
        axes.len() == 3,
        0 <= j < 3,
        !axes[j].parallel(),
        crossed_finitely(axes[0]),
        crossed_finitely(axes[1]),
        crossed_finitely(axes[2]),
    ensures
        hit_time(axes).finite(),
        exists|k: int, positive: bool|
            0 <= k < 3 && hit_face(axes) == #[trigger] face_name(k, positive),
{
    assert forall|i: int| 0 <= i < 3 && !(#[trigger] axes[i]).parallel() implies
        axes[i].low_crossing.finite() && axes[i].high_crossing.finite() by {
        reveal(crossed_finitely);
        assert(crossed_finitely(axes[i]));
    }
    lemma_hit_is_finite(axes, half, j);
}

/// A coordinate at a finite parameter is a number.
proof fn lemma_coordinate_is_number(ray: AxisRay, t: Single)
    requires
        ray.origin.finite(),
        ray.direction.finite(),
        t.finite(),
    ensures
        !ray.coordinate(t).nan(),
{
    law_product_sign(ray.direction, t);
    law_finite_number_has_sums(ray.origin, ray.direction.product(t));
}

/// The point that a click picks keeps to the slab of each axis.
#[verifier::rlimit(40)]
#[verifier::spinoff_prover]
proof fn lemma_picked_point_keeps_to_slab(origin: Vec3, direction: Vec3, i: int)
    requires
        0 <= i < 3,
        meets_cube(origin, direction),
        moderate(origin.along(i), direction.along(i)),
        hit_time(axes_of(origin, direction, Single { bits: CUBE_HALF })).finite(),
    ensures
        ({
            let half = Single { bits: CUBE_HALF };
            let axes = axes_of(origin, direction, half);
            keeps_to_slab(axes[i], half, hit_time(axes))
        }),
{
    let half = Single { bits: CUBE_HALF };
    let axes = axes_of(origin, direction, half);
    lemma_cube_half();
    lemma_axes_crossed_finitely(origin, direction, i);
    lemma_coordinate_is_number(axes[i], hit_time(axes));
    if axes[i].parallel() {
        lemma_hit_keeps_to_parallel_slab(axes, half, i, hit_time(axes));
    } else {
        reveal(crossed_finitely);
        lemma_face_is_reached(axes[i].origin, axes[i].direction, true);
        lemma_face_is_reached(axes[i].origin, axes[i].direction, false);
        law_hit_point_is_between_crossed_planes(origin, direction, half, i);
    }
}

/// The point that a click picks lies on the surface of the cube, but for rounding: along every
/// axis it keeps to the cube, and the face that is reported is one of the six and holds it. The
/// ray starts within 2^20 of the cube's centre along every axis, its direction is not longer
/// than 2^20 along any, and along some axis it is not a parallel one.
#[verifier::rlimit(40)]
#[verifier::spinoff_prover]
pub proof fn law_picked_point_is_on_cube(origin: Vec3, direction: Vec3, j: int)
    requires
        meets_cube(origin, direction),
        moderate(origin.x, direction.x),
        moderate(origin.y, direction.y),
        moderate(origin.z, direction.z),
        0 <= j < 3,
        !direction.along(j).magnitude().lt(Single { bits: PARALLEL_LIMIT }),
    ensures
        ({
            let half = Single { bits: CUBE_HALF };
            let axes = axes_of(origin, direction, half);
            let point = meeting_point(origin, direction);
            &&& hit_time(axes).finite()
            &&& keeps_to_slab(axes[0], half, hit_time(axes))
            &&& keeps_to_slab(axes[1], half, hit_time(axes))
            &&& keeps_to_slab(axes[2], half, hit_time(axes))
            &&& exists|k: int, positive: bool|
                {
                    &&& 0 <= k < 3
                    &&& meeting_face(origin, direction) == #[trigger] face_name(k, positive)
                    &&& on_plane(point.along(k), plane_of(half, positive), origin.along(k))
                }
        }),
{
    let half = Single { bits: CUBE_HALF };
    let axes = axes_of(origin, direction, half);
    lemma_axes_crossed_finitely(origin, direction, 0);
    lemma_axes_crossed_finitely(origin, direction, 1);
    lemma_axes_crossed_finitely(origin, direction, 2);
    lemma_picked_at_finite_parameter(axes, half, j);
    lemma_picked_point_keeps_to_slab(origin, direction, 0);
    lemma_picked_point_keeps_to_slab(origin, direction, 1);
    lemma_picked_point_keeps_to_slab(origin, direction, 2);
    let (k, positive) = choose|k: int, positive: bool|
        0 <= k < 3 && hit_face(axes) == #[trigger] face_name(k, positive);
    law_picked_point_is_on_reported_face(origin, direction, k, positive);
}

/// A pick that hits a point keeps it, and one that hits nothing keeps what was picked before. A
/// click without a ray hits nothing.
pub proof fn law_pick_keeps_what_it_hits(pick: Pick, point: Vec3)
    ensures
        pick.after(Some(point)).point == Some(point),
        pick.after(None) == pick,
        pick.after(picked_point(None)) == pick,
{
}

/// A marker moves and is shown or hidden, but keeps its rotation and scale. Where nothing was
/// picked, it keeps its place too, and it is shown exactly where something was.
pub proof fn law_marker_keeps_its_shape(pick: Pick, marker: Marker)
    ensures
        pick.marked(marker).transform.rotation == marker.transform.rotation,
        pick.marked(marker).transform.scale == marker.transform.scale,
        pick.point is None ==> pick.marked(marker).transform == marker.transform,
        pick.point matches Some(point) ==> pick.marked(marker).transform.translation == point,
        pick.marked(marker).visibility == Visibility::Visible <==> pick.point is Some,
        pick.marked(marker).visibility == Visibility::Hidden <==> pick.point is None,
{
}

/// The marker is shown at the point of the last pick that hit anything.
pub proof fn law_marker_shows_last_hit(
    pick: Pick,
    hits: Seq<Option<Vec3>>,
    last: int,
    marker: Marker,
)
    requires
        0 <= last < hits.len(),
        hits[last] is Some,
        forall|i: int| last < i < hits.len() ==> (#[trigger] hits[i]) is None,
    ensures
        pick.after_all(hits).point == hits[last],
        pick.after_all(hits).marked(marker).transform.translation == hits[last]->0,
        pick.after_all(hits).marked(marker).visibility == Visibility::Visible,
    decreases hits.len(),
{
    if last < hits.len() - 1 {
        let rest = hits.drop_last();
        assert(rest[last] == hits[last]);
        law_marker_shows_last_hit(pick, rest, last, marker);
    }
}

/// The marker is hidden until a pick hits something.
pub proof fn law_marker_is_hidden_until_hit(hits: Seq<Option<Vec3>>, marker: Marker)
    requires
        forall|i: int| 0 <= i < hits.len() ==> (#[trigger] hits[i]) is None,
    ensures
        Pick::initial().after_all(hits) == Pick::initial(),
        Pick::initial().after_all(hits).marked(marker).visibility == Visibility::Hidden,
    decreases hits.len(),
{
    if hits.len() > 0 {
        law_marker_is_hidden_until_hit(hits.drop_last(), marker);
    }
}

} // verus!

//! Where a ray meets a cube that is centred on the origin.
//!
//! The cube is the common part of three slabs, one for each axis, each between two
//! planes at `half` and `-half`. Seen along the ray, a slab is an interval of ray
//! parameters, and the ray meets the cube where the three intervals have a
//! parameter in common that is not negative.
use crate::arithmetic::{
    law_product_keeps_order, law_product_with_opposite, law_quotient_sign, law_sum_keeps_order, NAN,
};
use crate::single::{law_infinities_bound_all, Single, INFINITY, NEG_INFINITY, ZERO};
use crate::vector::Vec3;
use vstd::prelude::*;

verus! {

/// The bits of 1e-6. A ray whose direction has a smaller component along an axis
/// counts as parallel to that axis' slab.
pub const PARALLEL_LIMIT: u32 = 0x3586_37bd;

/// The bits of 1.0.
pub const ONE: u32 = 0x3f80_0000;

/// What a ray does along one axis: its origin and direction there, and the
/// parameters at which it crosses the slab's two planes. Along a slab that the
/// ray is parallel to, the two crossings carry no meaning.
#[derive(Clone, Copy, PartialEq, Eq, Structural, Debug)]
pub struct AxisRay {
    pub origin: Single,
    pub direction: Single,
    /// The parameter at the plane at `-half`.
    pub low_crossing: Single,
    /// The parameter at the plane at `half`.
    pub high_crossing: Single,
}

impl AxisRay {
    /// The ray along one axis, with the crossings that follow from its origin, its
    /// direction and the planes' distance from the centre.
    pub open spec fn along(origin: Single, direction: Single, half: Single) -> AxisRay {
        let inverse = (Single { bits: ONE }).quotient(direction);
        AxisRay {
            origin,
            direction,
            low_crossing: half.opposite().difference(origin).product(inverse),
            high_crossing: half.difference(origin).product(inverse),
        }
    }

    /// The ray along one axis.
    fn new(origin: Single, direction: Single, half: Single) -> (r: AxisRay)
        ensures
            r == AxisRay::along(origin, direction, half),
    {
        let inverse = Single::from_bits(ONE).over(direction);
        AxisRay {
            origin,
            direction,
            low_crossing: half.neg().minus(origin).times(inverse),
            high_crossing: half.minus(origin).times(inverse),
        }
    }

    /// The coordinate at parameter `t`.
    pub open spec fn coordinate(self, t: Single) -> Single {
        self.origin.sum(self.direction.product(t))
    }

    fn at(self, t: Single) -> (r: Single)
        ensures
            r == self.coordinate(t),
    {
        self.origin.plus(self.direction.times(t))
    }

    /// The ray stays at its origin's distance from the slab's planes.
    pub open spec fn parallel(self) -> bool {
        self.direction.magnitude().lt(Single { bits: PARALLEL_LIMIT })
    }

    /// The ray starts beyond one of the slab's planes.
    pub open spec fn outside(self, half: Single) -> bool {
        self.origin.lt(half.opposite()) || half.lt(self.origin)
    }

    /// The ray crosses the plane at `half` first.
    pub open spec fn from_high(self) -> bool {
        self.high_crossing.lt(self.low_crossing)
    }

    /// The parameter at which the ray enters the slab.
    pub open spec fn entry(self) -> Single {
        if self.from_high() {
            self.high_crossing
        } else {
            self.low_crossing
        }
    }

    /// The parameter at which the ray leaves the slab.
    pub open spec fn exit(self) -> Single {
        if self.from_high() {
            self.low_crossing
        } else {
            self.high_crossing
        }
    }

    /// The point at parameter `v` is in the slab. A crossing that is no number sets
    /// no bound.
    pub open spec fn admits(self, half: Single, v: int) -> bool {
        if self.parallel() {
            !self.outside(half)
        } else {
            &&& self.entry().nan() || self.entry().value() <= v
            &&& self.exit().nan() || v <= self.exit().value()
        }
    }

    /// The slab is entered at some parameter above negative infinity.
    pub open spec fn bounds_entry(self) -> bool {
        !self.parallel() && (Single { bits: NEG_INFINITY }).lt(self.entry())
    }

    /// The slab is left at some parameter below infinity.
    pub open spec fn bounds_exit(self) -> bool {
        !self.parallel() && self.exit().lt(Single { bits: INFINITY })
    }
}

/// Of the first `n` slabs, slab `k` is the one that is entered last; of several that
/// are entered at once, the first.
pub open spec fn entered_last(axes: Seq<AxisRay>, n: int, k: int) -> bool {
    &&& 0 <= k < n
    &&& axes[k].bounds_entry()
    &&& forall|j: int|
        0 <= j < n && (#[trigger] axes[j]).bounds_entry() ==> {
            &&& axes[j].entry().value() <= axes[k].entry().value()
            &&& j < k ==> axes[j].entry().value() < axes[k].entry().value()
        }
}

/// Of the first `n` slabs, slab `k` is the one that is left first; of several that
/// are left at once, the first.
pub open spec fn left_first(axes: Seq<AxisRay>, n: int, k: int) -> bool {
    &&& 0 <= k < n
    &&& axes[k].bounds_exit()
    &&& forall|j: int|
        0 <= j < n && (#[trigger] axes[j]).bounds_exit() ==> {
            &&& axes[k].exit().value() <= axes[j].exit().value()
            &&& j < k ==> axes[k].exit().value() < axes[j].exit().value()
        }
}

/// The slab that is entered last, where any entry is bounded.
pub open spec fn entry_axis(axes: Seq<AxisRay>) -> Option<int> {
    if exists|k: int| entered_last(axes, axes.len() as int, k) {
        Some(choose|k: int| entered_last(axes, axes.len() as int, k))
    } else {
        None
    }
}

/// The slab that is left first, where any exit is bounded.
pub open spec fn exit_axis(axes: Seq<AxisRay>) -> Option<int> {
    if exists|k: int| left_first(axes, axes.len() as int, k) {
        Some(choose|k: int| left_first(axes, axes.len() as int, k))
    } else {
        None
    }
}

/// The parameter from which on the ray is in every slab that it crosses.
pub open spec fn entry_time(axes: Seq<AxisRay>) -> Single {
    match entry_axis(axes) {
        Some(k) => axes[k].entry(),
        None => Single { bits: NEG_INFINITY },
    }
}

/// The parameter up to which the ray is in every slab that it crosses.
pub open spec fn exit_time(axes: Seq<AxisRay>) -> Single {
    match exit_axis(axes) {
        Some(k) => axes[k].exit(),
        None => Single { bits: INFINITY },
    }
}

/// The ray starts outside of a slab that it never crosses.
pub open spec fn passes_by(axes: Seq<AxisRay>, half: Single) -> bool {
    exists|i: int|
        0 <= i < axes.len() && (#[trigger] axes[i]).parallel() && axes[i].outside(half)
}

/// The ray meets the cube.
pub open spec fn hits(axes: Seq<AxisRay>, half: Single) -> bool {
    &&& !passes_by(axes, half)
    &&& entry_time(axes).value() <= exit_time(axes).value()
    &&& exit_time(axes).value() >= 0
}

/// The parameter of the hit: where the ray enters the cube, or, for a ray that starts
/// inside, where it leaves.
pub open spec fn hit_time(axes: Seq<AxisRay>) -> Single {
    if entry_time(axes).value() >= 0 {
        entry_time(axes)
    } else {
        exit_time(axes)
    }
}

/// The point at parameter `v` is in all slabs.
pub open spec fn in_cube(axes: Seq<AxisRay>, half: Single, v: int) -> bool {
    forall|i: int| 0 <= i < axes.len() ==> (#[trigger] axes[i]).admits(half, v)
}

/// `v` is the parameter of a point that is not behind the ray's origin.
pub open spec fn on_ray(v: int) -> bool {
    0 <= v <= (Single { bits: INFINITY }).value()
}

/// The name of a face of the cube.
pub open spec fn face_name(axis: int, positive: bool) -> Seq<char> {
    if axis == 0 {
        if positive { "+X"@ } else { "-X"@ }
    } else if axis == 1 {
        if positive { "+Y"@ } else { "-Y"@ }
    } else {
        if positive { "+Z"@ } else { "-Z"@ }
    }
}

/// The name of the face on which the ray hits the cube: the one through which it enters,
/// or, for a ray that starts inside, the one through which it leaves. A ray that crosses no
/// face counts as hitting the first.
pub open spec fn hit_face(axes: Seq<AxisRay>) -> Seq<char> {
    if entry_time(axes).value() >= 0 {
        match entry_axis(axes) {
            Some(k) => face_name(k, axes[k].from_high()),
            None => face_name(0, false),
        }
    } else {
        match exit_axis(axes) {
            Some(k) => face_name(k, !axes[k].from_high()),
            None => face_name(0, false),
        }
    }
}

/// What is known of the entry once the first `n` slabs have been looked at.
spec fn entry_found(axes: Seq<AxisRay>, n: int, t: Single, k: int, positive: bool) -> bool {
    if exists|j: int| 0 <= j < n && (#[trigger] axes[j]).bounds_entry() {
        &&& entered_last(axes, n, k)
        &&& t == axes[k].entry()
        &&& positive == axes[k].from_high()
    } else {
        t == (Single { bits: NEG_INFINITY }) && k == 0 && !positive
    }
}

/// What is known of the exit once the first `n` slabs have been looked at.
spec fn exit_found(axes: Seq<AxisRay>, n: int, t: Single, k: int, positive: bool) -> bool {
    if exists|j: int| 0 <= j < n && (#[trigger] axes[j]).bounds_exit() {
        &&& left_first(axes, n, k)
        &&& t == axes[k].exit()
        &&& positive == !axes[k].from_high()
    } else {
        t == (Single { bits: INFINITY }) && k == 0 && !positive
    }
}

/// Looking at one slab more.
proof fn lemma_entry_step(axes: Seq<AxisRay>, n: int, t: Single, k: int, positive: bool)
    requires
        0 <= n < axes.len(),
        entry_found(axes, n, t, k, positive),
    ensures
        !t.nan(),
        !axes[n].parallel() && t.lt(axes[n].entry()) ==> entry_found(
            axes,
            n + 1,
            axes[n].entry(),
            n,
            axes[n].from_high(),
        ),
        axes[n].parallel() || !t.lt(axes[n].entry()) ==> entry_found(axes, n + 1, t, k, positive),
{
    assert(!(Single { bits: NEG_INFINITY }).nan());
    if exists|j: int| 0 <= j < n && (#[trigger] axes[j]).bounds_entry() {
        assert(axes[k].bounds_entry());
        law_infinities_bound_all(t);
        assert(exists|j: int| 0 <= j < n + 1 && (#[trigger] axes[j]).bounds_entry());
        if !axes[n].parallel() && t.lt(axes[n].entry()) {
            assert(axes[n].bounds_entry());
            assert(entered_last(axes, n + 1, n));
        } else {
            assert(entered_last(axes, n + 1, k));
        }
    } else if axes[n].bounds_entry() {
        assert(entered_last(axes, n + 1, n));
    } else {
        assert(!exists|j: int| 0 <= j < n + 1 && (#[trigger] axes[j]).bounds_entry());
    }
}

proof fn lemma_exit_step(axes: Seq<AxisRay>, n: int, t: Single, k: int, positive: bool)
    requires
        0 <= n < axes.len(),
        exit_found(axes, n, t, k, positive),
    ensures
        !t.nan(),
        !axes[n].parallel() && axes[n].exit().lt(t) ==> exit_found(
            axes,
            n + 1,
            axes[n].exit(),
            n,
            !axes[n].from_high(),
        ),
        axes[n].parallel() || !axes[n].exit().lt(t) ==> exit_found(axes, n + 1, t, k, positive),
{
    assert(!(Single { bits: INFINITY }).nan());
    if exists|j: int| 0 <= j < n && (#[trigger] axes[j]).bounds_exit() {
        assert(axes[k].bounds_exit());
        law_infinities_bound_all(t);
        assert(exists|j: int| 0 <= j < n + 1 && (#[trigger] axes[j]).bounds_exit());
        if !axes[n].parallel() && axes[n].exit().lt(t) {
            assert(axes[n].bounds_exit());
            assert(left_first(axes, n + 1, n));
        } else {
            assert(left_first(axes, n + 1, k));
        }
    } else if axes[n].bounds_exit() {
        assert(left_first(axes, n + 1, n));
    } else {
        assert(!exists|j: int| 0 <= j < n + 1 && (#[trigger] axes[j]).bounds_exit());
    }
}

/// Once all slabs have been looked at, what was found is the entry. Before that, the
/// entry is no earlier than what was found.
proof fn lemma_entry_found(axes: Seq<AxisRay>, n: int, t: Single, k: int, positive: bool)
    requires
        0 <= n <= axes.len(),
        entry_found(axes, n, t, k, positive),
    ensures
        !t.nan(),
        !entry_time(axes).nan(),
        t.value() <= entry_time(axes).value(),
        forall|j: int|
            0 <= j < axes.len() && (#[trigger] axes[j]).bounds_entry()
                ==> axes[j].entry().value() <= entry_time(axes).value(),
        n == axes.len() ==> t == entry_time(axes),
        n == axes.len() && t.value() >= 0 ==> face_name(k, positive) == hit_face(axes),
    decreases axes.len() - n,
{
    assert(!(Single { bits: NEG_INFINITY }).nan());
    if n == axes.len() {
        if exists|j: int| 0 <= j < n && (#[trigger] axes[j]).bounds_entry() {
            assert(entered_last(axes, n, k));
            let other = entry_axis(axes)->0;
            assert(entered_last(axes, n, other));
            assert(axes[k].bounds_entry() && axes[other].bounds_entry());
            assert(k == other);
        } else {
            assert(entry_axis(axes) is None) by {
                if exists|j: int| entered_last(axes, n, j) {
                    let j = choose|j: int| entered_last(axes, n, j);
                    assert(axes[j].bounds_entry());
                }
            }
        }
    } else {
        lemma_entry_step(axes, n, t, k, positive);
        if !axes[n].parallel() && t.lt(axes[n].entry()) {
            lemma_entry_found(axes, n + 1, axes[n].entry(), n, axes[n].from_high());
        } else {
            lemma_entry_found(axes, n + 1, t, k, positive);
        }
    }
}

/// The same of the exit, which is no later than what was found.
proof fn lemma_exit_found(axes: Seq<AxisRay>, n: int, t: Single, k: int, positive: bool)
    requires
        0 <= n <= axes.len(),
        exit_found(axes, n, t, k, positive),
    ensures
        !t.nan(),
        !exit_time(axes).nan(),
        exit_time(axes).value() <= t.value(),
        forall|j: int|
            0 <= j < axes.len() && (#[trigger] axes[j]).bounds_exit()
                ==> exit_time(axes).value() <= axes[j].exit().value(),
        n == axes.len() ==> t == exit_time(axes),
        n == axes.len() && entry_time(axes).value() < 0 ==> face_name(k, positive) == hit_face(
            axes,
        ),
    decreases axes.len() - n,
{
    assert(!(Single { bits: INFINITY }).nan());
    if n == axes.len() {
        if exists|j: int| 0 <= j < n && (#[trigger] axes[j]).bounds_exit() {
            assert(left_first(axes, n, k));
            let other = exit_axis(axes)->0;
            assert(left_first(axes, n, other));
            assert(axes[k].bounds_exit() && axes[other].bounds_exit());
            assert(k == other);
        } else {
            assert(exit_axis(axes) is None) by {
                if exists|j: int| left_first(axes, n, j) {
                    let j = choose|j: int| left_first(axes, n, j);
                    assert(axes[j].bounds_exit());
                }
            }
        }
    } else {
        lemma_exit_step(axes, n, t, k, positive);
        if !axes[n].parallel() && axes[n].exit().lt(t) {
            lemma_exit_found(axes, n + 1, axes[n].exit(), n, !axes[n].from_high());
        } else {
            lemma_exit_found(axes, n + 1, t, k, positive);
        }
    }
}

/// Two rays bound the entries of slabs `i` and `j` alike, and enter them in the same order.
pub(crate) open spec fn entries_alike(
    axes: Seq<AxisRay>,
    other: Seq<AxisRay>,
    i: int,
    j: int,
) -> bool {
    &&& axes[i].bounds_entry() == other[i].bounds_entry()
    &&& axes[j].bounds_entry() == other[j].bounds_entry()
    &&& axes[i].bounds_entry() && axes[j].bounds_entry() ==> (axes[i].entry().value()
        < axes[j].entry().value() <==> other[i].entry().value() < other[j].entry().value())
}

/// Two rays enter the slabs in the same order.
pub(crate) open spec fn same_entry_order(axes: Seq<AxisRay>, other: Seq<AxisRay>) -> bool {
    &&& axes.len() == other.len()
    &&& forall|i: int, j: int|
        0 <= i < axes.len() && 0 <= j < axes.len() ==> #[trigger] entries_alike(axes, other, i, j)
}

proof fn lemma_entered_last_carries(axes: Seq<AxisRay>, other: Seq<AxisRay>, k: int)
    requires
        same_entry_order(axes, other),
        entered_last(axes, axes.len() as int, k),
    ensures
        entered_last(other, axes.len() as int, k),
{
    assert(entries_alike(axes, other, k, k));
    assert forall|j: int| 0 <= j < axes.len() && (#[trigger] other[j]).bounds_entry() implies {
        &&& other[j].entry().value() <= other[k].entry().value()
        &&& j < k ==> other[j].entry().value() < other[k].entry().value()
    } by {
        assert(entries_alike(axes, other, j, k));
        assert(entries_alike(axes, other, k, j));
        assert(axes[j].bounds_entry());
    }
}

/// Rays that enter the slabs in the same order enter the same slab last.
pub(crate) proof fn lemma_same_entry(axes: Seq<AxisRay>, other: Seq<AxisRay>)
    requires
        same_entry_order(axes, other),
    ensures
        entry_axis(axes) == entry_axis(other),
{
    let n = axes.len() as int;
    if let Some(k) = entry_axis(axes) {
        lemma_entered_last_carries(axes, other, k);
        let l = choose|l: int| entered_last(other, n, l);
        assert(entered_last(other, n, k) && entered_last(other, n, l));
        assert(other[k].bounds_entry() && other[l].bounds_entry());
    } else if let Some(k) = entry_axis(other) {
        assert forall|i: int, j: int|
            0 <= i < other.len() && 0 <= j < other.len() implies #[trigger] entries_alike(
            other,
            axes,
            i,
            j,
        ) by {
            assert(entries_alike(axes, other, i, j));
        }
        lemma_entered_last_carries(other, axes, k);
    }
}

/// Two rays bound the exits of slabs `i` and `j` alike, and leave them in the same order.
pub(crate) open spec fn exits_alike(
    axes: Seq<AxisRay>,
    other: Seq<AxisRay>,
    i: int,
    j: int,
) -> bool {
    &&& axes[i].bounds_exit() == other[i].bounds_exit()
    &&& axes[j].bounds_exit() == other[j].bounds_exit()
    &&& axes[i].bounds_exit() && axes[j].bounds_exit() ==> (axes[i].exit().value()
        < axes[j].exit().value() <==> other[i].exit().value() < other[j].exit().value())
}

/// Two rays leave the slabs in the same order.
pub(crate) open spec fn same_exit_order(axes: Seq<AxisRay>, other: Seq<AxisRay>) -> bool {
    &&& axes.len() == other.len()
    &&& forall|i: int, j: int|
        0 <= i < axes.len() && 0 <= j < axes.len() ==> #[trigger] exits_alike(axes, other, i, j)
}

proof fn lemma_left_first_carries(axes: Seq<AxisRay>, other: Seq<AxisRay>, k: int)
    requires
        same_exit_order(axes, other),
        left_first(axes, axes.len() as int, k),
    ensures
        left_first(other, axes.len() as int, k),
{
    assert(exits_alike(axes, other, k, k));
    assert forall|j: int| 0 <= j < axes.len() && (#[trigger] other[j]).bounds_exit() implies {
        &&& other[k].exit().value() <= other[j].exit().value()
        &&& j < k ==> other[k].exit().value() < other[j].exit().value()
    } by {
        assert(exits_alike(axes, other, j, k));
        assert(exits_alike(axes, other, k, j));
        assert(axes[j].bounds_exit());
    }
}

/// Rays that leave the slabs in the same order leave the same slab first.
pub(crate) proof fn lemma_same_exit(axes: Seq<AxisRay>, other: Seq<AxisRay>)
    requires
        same_exit_order(axes, other),
    ensures
        exit_axis(axes) == exit_axis(other),
{
    let n = axes.len() as int;
    if let Some(k) = exit_axis(axes) {
        lemma_left_first_carries(axes, other, k);
        let l = choose|l: int| left_first(other, n, l);
        assert(left_first(other, n, k) && left_first(other, n, l));
        assert(other[k].bounds_exit() && other[l].bounds_exit());
    } else if let Some(k) = exit_axis(other) {
        assert forall|i: int, j: int|
            0 <= i < other.len() && 0 <= j < other.len() implies #[trigger] exits_alike(
            other,
            axes,
            i,
            j,
        ) by {
            assert(exits_alike(axes, other, i, j));
        }
        lemma_left_first_carries(other, axes, k);
    }
}

/// The ray from `origin` along `direction`, axis by axis.
pub open spec fn axes_of(origin: Vec3, direction: Vec3, half: Single) -> Seq<AxisRay> {
    seq![
        AxisRay::along(origin.x, direction.x, half),
        AxisRay::along(origin.y, direction.y, half),
        AxisRay::along(origin.z, direction.z, half),
    ]
}

/// The point at parameter `t`.
pub open spec fn point_at(axes: Seq<AxisRay>, t: Single) -> Vec3 {
    Vec3 { x: axes[0].coordinate(t), y: axes[1].coordinate(t), z: axes[2].coordinate(t) }
}

/// Where a ray meets the cube of edge length `2 * half`: the point, and the name of the
/// face on which it lies; `None` where the ray misses the cube.
pub fn ray_cube_hit(origin: Vec3, direction: Vec3, half: Single) -> (r: Option<
    (Vec3, &'static str),
>)
    ensures
        r is Some <==> hits(axes_of(origin, direction, half), half),
        r matches Some((point, face)) ==> {
            let axes = axes_of(origin, direction, half);
            point == point_at(axes, hit_time(axes)) && face@ == hit_face(axes)
        },
{
    let axes = [
        AxisRay::new(origin.x, direction.x, half),
        AxisRay::new(origin.y, direction.y, half),
        AxisRay::new(origin.z, direction.z, half),
    ];
    assert(axes@ == axes_of(origin, direction, half));
    match slabs_hit(&axes, half) {
        Some((t, face)) => Some((Vec3::new(axes[0].at(t), axes[1].at(t), axes[2].at(t)), face)),
        None => None,
    }
}

/// The parameter at which a ray meets the cube, and the name of the face that it meets;
/// `None` where it misses the cube.
#[verifier::rlimit(40)]
#[verifier::spinoff_prover]
fn slabs_hit(axes: &[AxisRay; 3], half: Single) -> (r: Option<(Single, &'static str)>)
    ensures
        r is Some <==> hits(axes@, half),
        r matches Some((t, face)) ==> t == hit_time(axes@) && face@ == hit_face(axes@),
{
    let mut t_min = Single::from_bits(NEG_INFINITY);
    let mut t_max = Single::from_bits(INFINITY);
    let mut entry_axis: usize = 0;
    let mut entry_positive = false;
    let mut exit_axis: usize = 0;
    let mut exit_positive = false;
    let mut index: usize = 0;
    while index < 3
        invariant
            index <= 3,
            entry_found(axes@, index as int, t_min, entry_axis as int, entry_positive),
            exit_found(axes@, index as int, t_max, exit_axis as int, exit_positive),
            forall|i: int|
                0 <= i < index && (#[trigger] axes@[i]).parallel() ==> !axes@[i].outside(half),
            t_min.value() <= t_max.value(),
        decreases 3 - index,
    {
        let ray = axes[index];
        proof {
            assert(ray == axes@[index as int]);
            lemma_entry_step(axes@, index as int, t_min, entry_axis as int, entry_positive);
            lemma_exit_step(axes@, index as int, t_max, exit_axis as int, exit_positive);
        }
        index = index + 1;
        if ray.direction.abs().is_below(Single::from_bits(PARALLEL_LIMIT)) {
            if ray.origin.is_below(half.neg()) || half.is_below(ray.origin) {
                return None;
            }
            continue;
        }
        let mut t1 = ray.low_crossing;
        let mut t2 = ray.high_crossing;
        let mut from_high = false;
        if t2.is_below(t1) {
            t1 = ray.high_crossing;
            t2 = ray.low_crossing;
            from_high = true;
        }
        if t_min.is_below(t1) {
            t_min = t1;
            entry_axis = index - 1;
            entry_positive = from_high;
        }
        if t2.is_below(t_max) {
            t_max = t2;
            exit_axis = index - 1;
            exit_positive = !from_high;
        }
        proof {
            lemma_entry_found(axes@, index as int, t_min, entry_axis as int, entry_positive);
            lemma_exit_found(axes@, index as int, t_max, exit_axis as int, exit_positive);
        }
        if t_max.is_below(t_min) {
            return None;
        }
    }
    proof {
        lemma_entry_found(axes@, 3, t_min, entry_axis as int, entry_positive);
        lemma_exit_found(axes@, 3, t_max, exit_axis as int, exit_positive);
    }
    let zero = Single::from_bits(ZERO);
    if t_max.is_below(zero) {
        return None;
    }
    let (t, axis, positive) = if t_min.is_at_least(zero) {
        (t_min, entry_axis, entry_positive)
    } else {
        (t_max, exit_axis, exit_positive)
    };
    let face = match (axis, positive) {
        (0, true) => "+X",
        (0, false) => "-X",
        (1, true) => "+Y",
        (1, false) => "-Y",
        (2, true) => "+Z",
        _ => "-Z",
    };
    Some((t, face))
}

/// The entry and the exit are numbers, and they bound every slab's interval.
pub(crate) proof fn lemma_times(axes: Seq<AxisRay>)
    ensures
        !entry_time(axes).nan(),
        !exit_time(axes).nan(),
        forall|i: int|
            0 <= i < axes.len() && (#[trigger] axes[i]).bounds_entry()
                ==> axes[i].entry().value() <= entry_time(axes).value(),
        forall|i: int|
            0 <= i < axes.len() && (#[trigger] axes[i]).bounds_exit()
                ==> exit_time(axes).value() <= axes[i].exit().value(),
{
    let first = Single { bits: NEG_INFINITY };
    let last = Single { bits: INFINITY };
    assert(entry_found(axes, 0, first, 0, false));
    assert(exit_found(axes, 0, last, 0, false));
    lemma_entry_found(axes, 0, first, 0, false);
    lemma_exit_found(axes, 0, last, 0, false);
}

proof fn lemma_between_is_in_cube(axes: Seq<AxisRay>, half: Single, v: int)
    requires
        !passes_by(axes, half),
        entry_time(axes).value() <= v <= exit_time(axes).value(),
    ensures
        in_cube(axes, half, v),
{
    lemma_times(axes);
    law_infinities_bound_all(entry_time(axes));
    law_infinities_bound_all(exit_time(axes));
    assert forall|i: int| 0 <= i < axes.len() implies (#[trigger] axes[i]).admits(half, v) by {
        assert(!(axes[i].parallel() && axes[i].outside(half)));
    }
}

proof fn lemma_in_cube_is_between(axes: Seq<AxisRay>, half: Single, v: int)
    requires
        on_ray(v),
        in_cube(axes, half, v),
    ensures
        !passes_by(axes, half),
        entry_time(axes).value() <= v <= exit_time(axes).value(),
{
    law_infinities_bound_all(Single { bits: ZERO });
    assert forall|i: int| 0 <= i < axes.len() implies !((#[trigger] axes[i]).parallel()
        && axes[i].outside(half)) by {
        assert(axes[i].admits(half, v));
    }
    if entry_axis(axes) is Some {
        let k = entry_axis(axes)->0;
        assert(entered_last(axes, axes.len() as int, k));
        assert(axes[k].admits(half, v));
    }
    if exit_axis(axes) is Some {
        let k = exit_axis(axes)->0;
        assert(left_first(axes, axes.len() as int, k));
        assert(axes[k].admits(half, v));
    }
}

/// A hit is reported exactly where some point of the ray is in the cube.
pub proof fn law_hit_iff_ray_reaches_cube(axes: Seq<AxisRay>, half: Single)
    ensures
        hits(axes, half) <==> exists|v: int| on_ray(v) && #[trigger] in_cube(axes, half, v),
{
    lemma_times(axes);
    law_infinities_bound_all(Single { bits: ZERO });
    law_infinities_bound_all(entry_time(axes));
    if hits(axes, half) {
        let v = if entry_time(axes).value() >= 0 {
            entry_time(axes).value()
        } else {
            0
        };
        lemma_between_is_in_cube(axes, half, v);
    }
    if exists|v: int| on_ray(v) && #[trigger] in_cube(axes, half, v) {
        let v = choose|v: int| on_ray(v) && #[trigger] in_cube(axes, half, v);
        lemma_in_cube_is_between(axes, half, v);
    }
}

/// The hit is a point of the ray in the cube. No earlier point of the ray is in the
/// cube, unless the slabs are all entered behind the ray's origin: of a ray that
/// starts inside, the hit is the last point in the cube.
pub proof fn law_hit_is_where_ray_enters_or_leaves(axes: Seq<AxisRay>, half: Single)
    requires
        hits(axes, half),
    ensures
        !hit_time(axes).nan(),
        on_ray(hit_time(axes).value()),
        in_cube(axes, half, hit_time(axes).value()),
        entry_time(axes).value() >= 0 ==> forall|v: int|
            on_ray(v) && #[trigger] in_cube(axes, half, v) ==> hit_time(axes).value() <= v,
        entry_time(axes).value() < 0 ==> forall|v: int|
            on_ray(v) && #[trigger] in_cube(axes, half, v) ==> v <= hit_time(axes).value(),
{
    lemma_times(axes);
    law_infinities_bound_all(hit_time(axes));
    lemma_between_is_in_cube(axes, half, hit_time(axes).value());
    assert forall|v: int| on_ray(v) && #[trigger] in_cube(axes, half, v) implies entry_time(
        axes,
    ).value() <= v <= exit_time(axes).value() by {
        lemma_in_cube_is_between(axes, half, v);
    }
}

/// The six faces have six names, so a name tells the axis and the side.
pub proof fn law_face_names_differ(axis: int, positive: bool, other_axis: int, other_positive: bool)
    requires
        0 <= axis < 3,
        0 <= other_axis < 3,
        face_name(axis, positive) == face_name(other_axis, other_positive),
    ensures
        axis == other_axis,
        positive == other_positive,
{
    reveal_strlit("+X");
    reveal_strlit("-X");
    reveal_strlit("+Y");
    reveal_strlit("-Y");
    reveal_strlit("+Z");
    reveal_strlit("-Z");
    let (a, b) = (face_name(axis, positive), face_name(other_axis, other_positive));
    assert(a[0] == b[0] && a[1] == b[1]);
}

/// Factors in order have products in order, or, with a number that has a sign, in the
/// opposite order.
pub(crate) proof fn lemma_products_in_order(low: Single, high: Single, inverse: Single)
    requires
        high.ge(low),
        !low.product(inverse).nan(),
        !high.product(inverse).nan(),
    ensures
        !inverse.negative() ==> low.product(inverse).value() <= high.product(inverse).value(),
        inverse.negative() ==> high.product(inverse).value() <= low.product(inverse).value(),
{
    if inverse.negative() {
        law_product_with_opposite(low, inverse);
        law_product_with_opposite(high, inverse);
        law_product_keeps_order(low, high, inverse.opposite());
    } else {
        law_product_keeps_order(low, high, inverse);
    }
}

/// A face's name is the sign of its side and the letter of its axis.
pub proof fn law_face_name_tells_side_and_axis(axis: int, positive: bool)
    requires
        0 <= axis < 3,
    ensures
        face_name(axis, positive).len() == 2,
        face_name(axis, positive)[0] == if positive { '+' } else { '-' },
        face_name(axis, positive)[1] == if axis == 0 {
            'X'
        } else if axis == 1 {
            'Y'
        } else {
            'Z'
        },
{
    reveal_strlit("+X");
    reveal_strlit("-X");
    reveal_strlit("+Y");
    reveal_strlit("-Y");
    reveal_strlit("+Z");
    reveal_strlit("-Z");
}

/// A ray that goes along an axis crosses the plane at `-half` first, if the two are crossed
/// one after the other, and one that goes against it crosses the plane at `half` first.
pub proof fn law_first_crossing_is_turned_to_the_ray(
    origin: Single,
    direction: Single,
    half: Single,
)
    requires
        !half.nan(),
        half.value() >= 0,
    ensures
        ({
            let ray = AxisRay::along(origin, direction, half);
            &&& !direction.negative() ==> !ray.from_high()
            &&& direction.negative() ==> !ray.low_crossing.lt(ray.high_crossing)
        }),
{
    let inverse = (Single { bits: ONE }).quotient(direction);
    let low = half.opposite().difference(origin);
    let high = half.difference(origin);
    lemma_ways_in_order(origin, half);
    lemma_inverse_sign(direction);
    lemma_crossings_in_order(low, high, inverse);
}

/// The way to the plane at `half` is not below the way to the plane at `-half`.
proof fn lemma_ways_in_order(origin: Single, half: Single)
    requires
        !half.nan(),
        half.value() >= 0,
    ensures
        ({
            let low = half.opposite().difference(origin);
            let high = half.difference(origin);
            low.nan() || high.nan() || high.ge(low)
        }),
{
    let (low, high) = (half.opposite().difference(origin), half.difference(origin));
    if !low.nan() && !high.nan() {
        assert(half.ge(half.opposite()));
        law_sum_keeps_order(half.opposite(), half, origin.opposite());
    }
}

/// The inverse of a direction has its sign.
proof fn lemma_inverse_sign(direction: Single)
    ensures
        ({
            let inverse = (Single { bits: ONE }).quotient(direction);
            inverse.nan() || inverse.negative() == direction.negative()
        }),
{
    let one = Single { bits: ONE };
    if !one.quotient(direction).nan() {
        law_quotient_sign(one, direction);
    }
}

/// Products with an inverse are in the order of the ways, or in the opposite one.
proof fn lemma_crossings_in_order(low: Single, high: Single, inverse: Single)
    requires
        low.nan() || high.nan() || high.ge(low),
    ensures
        inverse.nan() || !inverse.negative() ==> !high.product(inverse).lt(low.product(inverse)),
        inverse.nan() || inverse.negative() ==> !low.product(inverse).lt(high.product(inverse)),
{
    if !low.product(inverse).nan() && !high.product(inverse).nan() {
        lemma_factors_are_numbers(low, inverse);
        lemma_factors_are_numbers(high, inverse);
        lemma_products_in_order(low, high, inverse);
    }
}

/// Where there is a product there are factors.
proof fn lemma_factors_are_numbers(a: Single, b: Single)
    requires
        !a.product(b).nan(),
    ensures
        !a.nan(),
        !b.nan(),
{
    assert((Single { bits: NAN }).nan());
}

/// The face on which a ray enters is turned to the ray: a ray that goes along an axis does
/// not enter through the face on its positive side, and one that goes against it does not
/// enter through the face on its negative side, unless it crosses both planes at once.
pub proof fn law_entered_face_is_turned_to_the_ray(
    origin: Vec3,
    direction: Vec3,
    half: Single,
    k: int,
)
    requires
        !half.nan(),
        half.value() >= 0,
        entry_axis(axes_of(origin, direction, half)) == Some(k),
        entry_time(axes_of(origin, direction, half)).value() >= 0,
    ensures
        ({
            let axes = axes_of(origin, direction, half);
            let ray = axes[k];
            &&& !ray.direction.negative() ==> hit_face(axes) == face_name(k, false)
            &&& ray.direction.negative() && ray.entry().lt(ray.exit()) ==> hit_face(axes)
                == face_name(k, true)
        }),
{
    let axes = axes_of(origin, direction, half);
    assert(entered_last(axes, 3, k));
    let ray = axes[k];
    law_first_crossing_is_turned_to_the_ray(ray.origin, ray.direction, half);
}

/// A ray that starts inside leaves through a face that is turned away from it: along an axis
/// through the face on its positive side, and against it through the one on its negative
/// side, unless it crosses both planes at once.
pub proof fn law_left_face_is_turned_from_the_ray(
    origin: Vec3,
    direction: Vec3,
    half: Single,
    k: int,
)
    requires
        !half.nan(),
        half.value() >= 0,
        exit_axis(axes_of(origin, direction, half)) == Some(k),
        entry_time(axes_of(origin, direction, half)).value() < 0,
    ensures
        ({
            let axes = axes_of(origin, direction, half);
            let ray = axes[k];
            &&& !ray.direction.negative() ==> hit_face(axes) == face_name(k, true)
            &&& ray.direction.negative() && ray.entry().lt(ray.exit()) ==> hit_face(axes)
                == face_name(k, false)
        }),
{
    let axes = axes_of(origin, direction, half);
    assert(left_first(axes, 3, k));
    let ray = axes[k];
    law_first_crossing_is_turned_to_the_ray(ray.origin, ray.direction, half);
}

} // verus!

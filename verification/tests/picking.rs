use bevy_worker::pick::{Marker, Pick, Visibility};
use bevy_worker::ray::ray_cube_hit;
use bevy_worker::single::Single;
use bevy_worker::transform::{Quat, Transform};
use bevy_worker::vector::{Vec2, Vec3};
use bevy_worker::viewport::viewport_position;

fn single(x: f32) -> Single {
    Single::from_bits(x.to_bits())
}

fn number(x: Single) -> f32 {
    f32::from_bits(x.to_bits())
}

fn vector(x: f32, y: f32, z: f32) -> Vec3 {
    Vec3::new(single(x), single(y), single(z))
}

fn of(v: Vec3) -> [f32; 3] {
    [number(v.x), number(v.y), number(v.z)]
}

fn at(v: [f32; 3]) -> Vec3 {
    vector(v[0], v[1], v[2])
}

/// A marker at a point, turned and scaled.
fn marker(translation: Vec3, visibility: Visibility) -> Marker {
    let rotation = Quat { x: single(0.6), y: single(0.0), z: single(0.0), w: single(0.8) };
    let scale = vector(1.0, 2.0, 3.0);
    Marker { transform: Transform { translation, rotation, scale }, visibility }
}

fn hit(origin: [f32; 3], direction: [f32; 3]) -> Option<([f32; 3], &'static str)> {
    ray_cube_hit(at(origin), at(direction), single(0.75)).map(|(point, face)| (of(point), face))
}

/// The slab method in floating point.
fn slabs(origin: [f32; 3], direction: [f32; 3], half: f32) -> Option<([f32; 3], &'static str)> {
    let mut t_min = f32::NEG_INFINITY;
    let mut t_max = f32::INFINITY;
    let (mut entered, mut left) = ("-X", "-X");
    let names = [["-X", "+X"], ["-Y", "+Y"], ["-Z", "+Z"]];
    for index in 0..3 {
        let (o, d) = (origin[index], direction[index]);
        if d.abs() < 1e-6 {
            if o < -half || o > half {
                return None;
            }
            continue;
        }
        let (mut t1, mut t2) = ((-half - o) * (1.0 / d), (half - o) * (1.0 / d));
        let mut side = 0;
        if t1 > t2 {
            (t1, t2) = (t2, t1);
            side = 1;
        }
        if t1 > t_min {
            t_min = t1;
            entered = names[index][side];
        }
        if t2 < t_max {
            t_max = t2;
            left = names[index][1 - side];
        }
        if t_min > t_max {
            return None;
        }
    }
    if t_max < 0.0 {
        return None;
    }
    let (t, face) = if t_min >= 0.0 { (t_min, entered) } else { (t_max, left) };
    let point = [
        origin[0] + direction[0] * t,
        origin[1] + direction[1] * t,
        origin[2] + direction[2] * t,
    ];
    Some((point, face))
}

/// The bits of a point, those of a NaN being one and the same.
fn bits(point: [f32; 3]) -> [u32; 3] {
    point.map(|x| if x.is_nan() { f32::NAN.to_bits() } else { x.to_bits() })
}

#[test]
fn each_face_is_named() {
    assert_eq!(hit([5.0, 0.0, 0.0], [-1.0, 0.0, 0.0]), Some(([0.75, 0.0, 0.0], "+X")));
    assert_eq!(hit([-5.0, 0.0, 0.0], [1.0, 0.0, 0.0]), Some(([-0.75, 0.0, 0.0], "-X")));
    assert_eq!(hit([0.0, 5.0, 0.0], [0.0, -1.0, 0.0]), Some(([0.0, 0.75, 0.0], "+Y")));
    assert_eq!(hit([0.0, -5.0, 0.0], [0.0, 1.0, 0.0]), Some(([0.0, -0.75, 0.0], "-Y")));
    assert_eq!(hit([0.0, 0.0, 5.0], [0.0, 0.0, -1.0]), Some(([0.0, 0.0, 0.75], "+Z")));
    assert_eq!(hit([0.0, 0.0, -5.0], [0.0, 0.0, 1.0]), Some(([0.0, 0.0, -0.75], "-Z")));
}

#[test]
fn parallel_ray_outside_of_slab_misses() {
    assert_eq!(hit([0.8, 0.0, 5.0], [0.0, 0.0, -1.0]), None);
    assert_eq!(hit([-0.8, 0.0, 5.0], [0.0, 0.0, -1.0]), None);
    assert_eq!(hit([0.75, 0.0, 5.0], [0.0, 0.0, -1.0]), Some(([0.75, 0.0, 0.75], "+Z")));
}

#[test]
fn component_below_limit_is_parallel() {
    assert_eq!(hit([0.8, 0.0, 5.0], [9e-7, 0.0, -1.0]), None);
    assert_eq!(hit([0.8, 0.0, 5.0], [-9e-7, 0.0, -1.0]), None);
    assert_eq!(hit([0.0, 0.0, 5.0], [9e-7, 0.0, -1.0]).unwrap().1, "+Z");
}

#[test]
fn cube_behind_the_origin_is_missed() {
    assert_eq!(hit([0.0, 0.0, 5.0], [0.0, 0.0, 1.0]), None);
}

#[test]
fn disjoint_slabs_are_missed() {
    assert_eq!(hit([5.0, 2.0, 0.0], [-1.0, 0.1, 0.0]), None);
}

#[test]
fn ray_from_inside_hits_where_it_leaves() {
    assert_eq!(hit([0.0, 0.0, 0.0], [0.0, 0.0, -1.0]), Some(([0.0, 0.0, -0.75], "-Z")));
    assert_eq!(hit([0.25, 0.0, 0.0], [1.0, 0.0, 0.0]), Some(([0.75, 0.0, 0.0], "+X")));
    assert_eq!(hit([0.0, 0.5, 0.0], [0.0, -2.0, 0.0]), Some(([0.0, -0.75, 0.0], "-Y")));
    assert_eq!(hit([0.0, 0.5, 0.0], [1.0, 2.0, 0.0]), Some(([0.125, 0.75, 0.0], "+Y")));
    let (point, face) =
        ray_cube_hit(vector(0.0, 0.0, 0.0), vector(1.0, 0.0, 0.0), single(1.0)).unwrap();
    assert_eq!((of(point), face), ([1.0, 0.0, 0.0], "+X"));
}

#[test]
fn left_face_is_turned_from_the_ray() {
    for (direction, face) in [([0.3, 0.2, 1.0], "+Z"), ([-0.3, -0.2, -1.0], "-Z")] {
        assert_eq!(hit([0.1, -0.1, 0.2], direction).unwrap().1, face);
    }
}

/// The coordinate of a named face, and its axis.
fn plane(face: &str) -> (usize, f32) {
    let axis = match &face[1..] {
        "X" => 0,
        "Y" => 1,
        _ => 2,
    };
    (axis, if face.starts_with('+') { 0.75 } else { -0.75 })
}

#[test]
fn hit_point_is_on_the_named_face() {
    let mut inside = 0;
    for a in [-7.3, -0.6, 0.1, 0.74, 12.9] {
        for b in [-3.1, -0.2, 0.5, 5.7] {
            for c in [-9.9, 0.3, 0.7, 2.2] {
                for d in [[0.3, -0.1, 0.7], [-0.9, 0.2, -0.11], [0.01, 0.9, -0.4], [-a, -b, -c]] {
                    let origin = [a, b, c];
                    if let Some((point, face)) = hit(origin, d) {
                        let (axis, there) = plane(face);
                        let bound = (0.75 + origin[axis].abs() as f64) / 2097152.0;
                        assert!((point[axis] as f64 - there as f64).abs() <= bound);
                        if origin.iter().all(|x| x.abs() < 0.75) {
                            inside += 1;
                        }
                        for i in 0..3 {
                            let slack = (0.75 + origin[i].abs() as f64) / 2097152.0;
                            assert!((point[i] as f64).abs() <= 0.75 + slack);
                        }
                    }
                }
            }
        }
    }
    assert!(inside > 10);
}

#[test]
fn ray_from_inside_always_hits() {
    let steps = [-0.75f32, -0.3, 0.0, 0.75];
    let directions =
        [[1.0f32, 0.0, 0.0], [-0.2, 0.9, -1e-7], [1e30, -1e30, 3.0], [1e-3, 1e-3, 1e-3]];
    for a in steps {
        for b in steps {
            for c in steps {
                for direction in directions {
                    assert!(hit([a, b, c], direction).is_some());
                }
            }
        }
    }
}

#[test]
fn ray_from_outside_hits_where_it_enters() {
    for (origin, direction) in [
        ([2.0f32, 0.1, -0.2], [-1.0f32, 0.05, 0.0]),
        ([0.0, -3.0, 0.5], [0.1, 1.0, -0.1]),
        ([0.76, 0.0, 0.0], [-1.0, 0.0, 0.0]),
    ] {
        let (point, face) = hit(origin, direction).unwrap();
        let (axis, there) = plane(face);
        assert!(direction[axis] * there < 0.0);
        assert!((point[axis] - there).abs() < 1e-5);
    }
}

#[test]
fn picked_point_drifts_little_in_a_parallel_slab() {
    let (point, face) = hit([0.75, 0.0, 5.0], [9e-7, 0.0, -1.0]).unwrap();
    assert_eq!(face, "+Z");
    assert!(point[0] <= 0.75 + 1e-6 * 4.25);
}

#[test]
fn mirrored_ray_hits_the_mirrored_point() {
    let rays = [
        ([2.0, 1.0, 3.0], [-0.5, -0.2, -0.8]),
        ([0.1, 0.2, 0.3], [0.3, -0.9, 0.2]),
        ([-4.0, 0.5, 0.0], [1.0, 0.0, 0.0]),
    ];
    for (origin, direction) in rays {
        let (point, face) = hit(origin, direction).unwrap();
        for axis in 0..3 {
            let mirror = |v: [f32; 3]| {
                let mut other = v;
                other[axis] = -v[axis];
                other
            };
            let (other, other_face) = hit(mirror(origin), mirror(direction)).unwrap();
            assert_eq!(other, mirror(point));
            let (named, there) = plane(face);
            let (other_named, other_there) = plane(other_face);
            assert_eq!(other_named, named);
            assert_eq!(other_there, if named == axis { -there } else { there });
        }
    }
}

#[test]
fn scaled_direction_gives_the_same_hit() {
    for (origin, direction) in [
        ([2.0, 1.0, 3.0], [-0.5, -0.2, -0.8]),
        ([0.1, 0.2, 0.3], [0.3, -0.9, 0.2]),
        ([0.75, 0.0, 0.0], [-1.0, 0.3, 0.0]),
        ([9.0, 9.0, 9.0], [1.0, 0.5, 0.25]),
        ([0.3, 4.0, 0.1], [1e-10, -1.0, 0.05]),
    ] {
        let expected = hit(origin, direction).map(|(point, face)| (bits(point), face));
        for factor in [0.0625, 0.5, 2.0, 1024.0] {
            let found = hit(origin, direction.map(|d: f32| d * factor));
            assert_eq!(found.map(|(point, face)| (bits(point), face)), expected);
        }
    }
}

#[test]
fn ray_from_a_face_hits_at_once() {
    assert_eq!(hit([0.75, 0.0, 0.0], [-1.0, 0.0, 0.0]), Some(([0.75, 0.0, 0.0], "+X")));
}

#[test]
fn slabs_entered_at_once_go_to_the_first_axis() {
    assert_eq!(hit([2.0, 2.0, 0.0], [-1.0, -1.0, 0.0]), Some(([0.75, 0.75, 0.0], "+X")));
    assert_eq!(hit([0.0, 2.0, 2.0], [0.0, -1.0, -1.0]), Some(([0.0, 0.75, 0.75], "+Y")));
}

#[test]
fn ray_without_direction_inside_never_leaves() {
    let (point, face) = hit([0.0; 3], [0.0; 3]).unwrap();
    assert!(point[0].is_nan() && point[1].is_nan() && point[2].is_nan());
    assert_eq!(face, "-X");
}

#[test]
fn direction_that_is_no_number_sets_no_bound() {
    let (point, face) = hit([9.0; 3], [f32::NAN; 3]).unwrap();
    assert!(point[0].is_nan() && point[1].is_nan() && point[2].is_nan());
    assert_eq!(face, "-X");
}

#[test]
fn hits_are_those_of_the_slab_method() {
    let steps = [-3.0, -0.75, -0.2, 0.0, 0.75, 1.1, 2.5];
    let mut count = 0;
    for a in steps {
        for b in steps {
            for c in steps {
                for d in [-1.0, -0.3, 0.0, 0.6] {
                    for e in [-0.9, 1e-7, 0.4] {
                        for f in [-0.5, 0.0, 1.0] {
                            let (origin, direction) = ([a, b, c], [d, e, f]);
                            let expected = slabs(origin, direction, 0.75);
                            let found = hit(origin, direction);
                            assert_eq!(
                                found.map(|(point, face)| (bits(point), face)),
                                expected.map(|(point, face)| (bits(point), face))
                            );
                            if found.is_some() {
                                count += 1;
                            }
                        }
                    }
                }
            }
        }
    }
    assert!(count > 1000);
}

#[test]
fn hits_on_any_bits_are_those_of_the_slab_method() {
    let mut state: u64 = 5;
    let mut next = || {
        state = state
            .wrapping_mul(6364136223846793005)
            .wrapping_add(1442695040888963407);
        f32::from_bits((state >> 32) as u32)
    };
    for _ in 0..20000 {
        let origin = [next(), next(), next()];
        let direction = [next(), next(), next()];
        let half = next();
        let found = ray_cube_hit(at(origin), at(direction), single(half));
        assert_eq!(
            found.map(|(point, face)| (bits(of(point)), face)),
            slabs(origin, direction, half).map(|(point, face)| (bits(point), face))
        );
    }
}

#[test]
fn hit_is_in_the_cube() {
    let (point, face) = hit([2.0, 1.0, 3.0], [-0.5, -0.2, -0.8]).unwrap();
    assert_eq!(face, "+Z");
    for coordinate in point {
        assert!(coordinate.abs() <= 0.75001);
    }
}

#[test]
fn named_face_is_turned_to_the_ray() {
    for (direction, face) in [([0.3, 0.2, 1.0], "-Z"), ([-0.3, -0.2, -1.0], "+Z")] {
        let origin = direction.map(|d: f32| -3.0 * d);
        assert_eq!(hit(origin, direction).unwrap().1, face);
    }
}

#[test]
fn half_is_that_of_the_call() {
    let (point, face) =
        ray_cube_hit(vector(0.0, 0.0, 5.0), vector(0.0, 0.0, -1.0), single(2.0)).unwrap();
    assert_eq!((of(point), face), ([0.0, 0.0, 2.0], "+Z"));
}

#[test]
fn clicks_are_placed_in_the_viewport() {
    let viewport = Vec2::new(single(800.0), single(600.0));
    let position = |x: f32, y: f32| {
        let found = viewport_position(viewport, single(x), single(y));
        (number(found.x), number(found.y))
    };
    assert_eq!(position(0.0, 0.0), (400.0, 300.0));
    assert_eq!(position(-1.0, 1.0), (0.0, 0.0));
    assert_eq!(position(1.0, -1.0), (800.0, 600.0));
    assert_eq!(
        position(0.3, -0.7),
        ((0.3f32 + 1.0) * 0.5 * 800.0, (1.0 - -0.7f32) * 0.5 * 600.0)
    );
}

#[test]
fn clicks_in_the_view_are_in_the_viewport_in_proportion() {
    let viewport = Vec2::new(single(1023.7), single(0.3));
    for x in [-1.0f32, -0.9999, -0.3, 1e-30, 0.1, 0.77, 1.0] {
        for y in [-1.0f32, -0.5, -1e-9, 0.2, 1.0] {
            let found = viewport_position(viewport, single(x), single(y));
            let (right, down) = (number(found.x) as f64, number(found.y) as f64);
            assert!((0.0..=1023.7f32 as f64).contains(&right));
            assert!((0.0..=0.3f32 as f64).contains(&down));
            let (width, height) = (1023.7f32 as f64, 0.3f32 as f64);
            assert!((2.0 * right - (x as f64 + 1.0) * width).abs() <= width / 1048576.0);
            assert!((2.0 * down - (1.0 - y as f64) * height).abs() <= height / 1048576.0);
        }
    }
}

#[test]
fn pick_starts_empty() {
    assert_eq!(Pick::default(), Pick { point: None });
}

#[test]
fn pick_notes_and_reports_a_hit() {
    let mut pick = Pick::default();
    let ray = (vector(0.5, 0.25, 5.0), vector(0.0, 0.0, -1.0));
    let report = pick.pick(Some(ray)).unwrap();
    assert_eq!(report.face, "+Z");
    assert_eq!((number(report.x), number(report.y), number(report.z)), (0.5, 0.25, 0.75));
    assert_eq!(pick.point, Some(vector(0.5, 0.25, 0.75)));
}

#[test]
fn pick_that_misses_changes_nothing() {
    let mut pick = Pick { point: Some(vector(0.1, 0.2, 0.3)) };
    assert!(pick.pick(None).is_none());
    assert!(pick.pick(Some((vector(0.76, 0.0, 5.0), vector(0.0, 0.0, -1.0)))).is_none());
    assert_eq!(pick.point, Some(vector(0.1, 0.2, 0.3)));
}

#[test]
fn markers_are_hidden_until_a_hit() {
    let mut pick = Pick::default();
    assert!(pick.pick(None).is_none());
    let there = vector(1.0, 2.0, 3.0);
    let mut markers = vec![
        marker(there, Visibility::Visible),
        marker(there, Visibility::Inherited),
    ];
    pick.apply_pick(&mut markers);
    assert_eq!(markers, vec![marker(there, Visibility::Hidden); 2]);
}

#[test]
fn markers_show_the_last_hit() {
    let mut pick = Pick::default();
    let mut markers = vec![marker(vector(9.0, 9.0, 9.0), Visibility::Hidden); 3];
    pick.pick(Some((vector(5.0, 0.0, 0.0), vector(-1.0, 0.0, 0.0))));
    pick.pick(Some((vector(0.0, -5.0, 0.0), vector(0.0, 1.0, 0.0))));
    pick.pick(None);
    pick.apply_pick(&mut markers);
    assert_eq!(markers, vec![marker(vector(0.0, -0.75, 0.0), Visibility::Visible); 3]);
}

#[test]
fn no_markers_stay_none() {
    let mut markers: Vec<Marker> = Vec::new();
    Pick::default().apply_pick(&mut markers);
    assert!(markers.is_empty());
}

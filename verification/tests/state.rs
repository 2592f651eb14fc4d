use bevy_worker::adapter::{adapter_info, Backend, RenderAdapterInfo};
use bevy_worker::app::BevyApp;
use bevy_worker::camera::OrbitCamera;
use bevy_worker::controls::{Color, Controls};
use bevy_worker::lifecycle::{next_step, PluginsState, Step};
use bevy_worker::pick::{Marker, Pick, Visibility};
use bevy_worker::scene::setup;
use bevy_worker::single::Single;
use bevy_worker::stats::FrameStats;
use bevy_worker::transform::{Quat, Transform};
use bevy_worker::vector::Vec3;
use bevy_worker::window::{CanvasSize, Window, WindowResized, WindowResolution};

fn single(x: f32) -> Single {
    Single::from_bits(x.to_bits())
}

fn number(x: Single) -> f32 {
    f32::from_bits(x.to_bits())
}

fn vector(x: f32, y: f32, z: f32) -> Vec3 {
    Vec3::new(single(x), single(y), single(z))
}

fn size(width: f32, height: f32) -> CanvasSize {
    CanvasSize { width: single(width), height: single(height) }
}

fn resolution(width: u32, height: u32, over: Option<f32>, scale: f32) -> WindowResolution {
    WindowResolution {
        physical_width: width,
        physical_height: height,
        scale_factor_override: over.map(single),
        scale_factor: single(scale),
    }
}

/// The pose that moves nothing.
fn rest() -> Transform {
    let zero = single(0.0);
    Transform {
        translation: vector(0.0, 0.0, 0.0),
        rotation: Quat { x: zero, y: zero, z: zero, w: single(1.0) },
        scale: vector(1.0, 1.0, 1.0),
    }
}

fn start() -> BevyApp {
    BevyApp::new(size(800.0, 600.0))
}

#[test]
fn state_at_the_start() {
    let app = start();
    assert_eq!(app.opening, resolution(800, 600, None, 1.0));
    assert_eq!(app.controls, Controls::default());
    assert_eq!(number(app.controls.speed), 1.0);
    assert_eq!(
        app.controls.color,
        Color { red: single(0.3), green: single(0.5), blue: single(0.9) }
    );
    assert_eq!(app.camera, OrbitCamera::default());
    assert_eq!(
        (number(app.camera.yaw), number(app.camera.pitch), number(app.camera.distance)),
        (0.0, 0.32, 6.3)
    );
    assert_eq!(app.pick, Pick::default());
    assert_eq!(app.stats, FrameStats::default());
}

#[test]
fn controls_are_set() {
    let mut app = start();
    app.set_speed(single(2.5));
    app.set_color(single(0.1), single(0.2), single(0.7));
    let mut expected = start();
    expected.controls.speed = single(2.5);
    expected.controls.color = Color::srgb(single(0.1), single(0.2), single(0.7));
    assert_eq!(app, expected);
}

#[test]
fn controls_reach_the_material() {
    let mut app = start();
    app.set_color(single(0.1), single(0.2), single(0.7));
    let mut base_color = Color::srgb(single(1.0), single(1.0), single(1.0));
    app.controls.apply_controls(&mut base_color);
    assert_eq!(base_color, app.controls.color);
}

#[test]
fn spin_scales_with_speed_and_time() {
    let mut app = start();
    app.set_speed(single(2.5));
    let (turn, tilt) = app.controls.spin(single(0.016));
    assert_eq!(number(turn), 2.5f32 * 0.016);
    assert_eq!(number(tilt), 2.5f32 * 0.4 * 0.016);
}

#[test]
fn cube_rests_without_speed_or_time() {
    let spin = |speed: f32, delta: f32| {
        let controls = Controls { speed: single(speed), ..Controls::default() };
        let (turn, tilt) = controls.spin(single(delta));
        (number(turn), number(tilt))
    };
    assert_eq!(spin(0.0, 0.016), (0.0, 0.0));
    assert_eq!(spin(3.5, 0.0), (0.0, 0.0));
    let (turn, tilt) = spin(3.5, 0.016);
    assert_eq!(spin(-3.5, 0.016), (-turn, -tilt));
    assert!(turn > 0.0 && tilt > 0.0);
}

#[test]
fn orbit_turns_against_yaw_and_with_pitch() {
    let mut app = start();
    app.orbit(single(100.0), single(20.0));
    assert_eq!(number(app.camera.yaw), 0.0 - 100.0f32 * 0.005);
    assert_eq!(number(app.camera.pitch), 0.32f32 + 20.0 * 0.005);
    assert_eq!(app.camera.distance, start().camera.distance);
}

#[test]
fn orbit_limits_the_pitch_alone() {
    let mut app = start();
    app.orbit(single(10000.0), single(10000.0));
    assert_eq!(number(app.camera.yaw), -(10000.0f32 * 0.005));
    assert_eq!(number(app.camera.pitch), 1.5);
    app.orbit(single(0.0), single(f32::NEG_INFINITY));
    assert_eq!(number(app.camera.pitch), -1.5);
}

#[test]
fn zoom_goes_with_the_amount_up_to_its_limits() {
    let mut app = start();
    app.zoom(single(120.0));
    assert_eq!(number(app.camera.distance), 6.3f32 + 120.0 * 0.01);
    app.zoom(single(-10000.0));
    assert_eq!(number(app.camera.distance), 2.0);
    app.zoom(single(f32::INFINITY));
    assert_eq!(number(app.camera.distance), 20.0);
    assert_eq!(app.camera.pitch, start().camera.pitch);
}

#[test]
fn camera_follows_the_input() {
    let mut app = start();
    for delta in [0.0, 1.0, 7.5, 300.0] {
        let before = app.camera;
        app.orbit(single(0.0), single(delta));
        app.zoom(single(delta));
        assert!(app.camera.pitch.is_at_least(before.pitch));
        assert!(app.camera.distance.is_at_least(before.distance));
        let before = app.camera;
        app.orbit(single(0.0), single(-delta));
        app.zoom(single(-delta));
        assert!(before.pitch.is_at_least(app.camera.pitch));
        assert!(before.distance.is_at_least(app.camera.distance));
    }
}

#[test]
fn camera_rests_without_input() {
    let mut app = start();
    app.orbit(single(33.0), single(-12.0));
    let before = app;
    app.orbit(single(0.0), single(-0.0));
    app.zoom(single(0.0));
    assert_eq!(app, before);
}

#[test]
fn camera_passes_on_what_is_no_number() {
    let mut app = start();
    app.orbit(single(0.0), single(f32::NAN));
    app.zoom(single(f32::NAN));
    assert!(app.camera.pitch.is_nan() && app.camera.distance.is_nan());
}

#[test]
fn camera_is_placed_by_its_angles() {
    let camera = start().camera;
    let (yaw_sin, yaw_cos) = (0.6f32, 0.8f32);
    let (pitch_sin, pitch_cos) = (0.28f32, 0.96f32);
    let eye = camera.orbit_camera(
        single(yaw_sin),
        single(yaw_cos),
        single(pitch_sin),
        single(pitch_cos),
    );
    assert_eq!(
        (number(eye.x), number(eye.y), number(eye.z)),
        (6.3 * pitch_cos * yaw_sin, 6.3 * pitch_sin, 6.3 * pitch_cos * yaw_cos)
    );
}

#[test]
fn frames_are_counted_and_windows_closed() {
    let mut stats = FrameStats::default();
    stats.track_stats(single(0.125));
    assert_eq!((stats.frames, stats.window_frames), (1, 1));
    assert_eq!((number(stats.accumulator), number(stats.fps)), (0.125, 0.0));
    stats.track_stats(single(0.0625));
    assert_eq!((stats.frames, stats.window_frames), (2, 2));
    stats.track_stats(single(0.0625));
    assert_eq!((stats.frames, stats.window_frames), (3, 0));
    assert_eq!((number(stats.accumulator), number(stats.fps)), (0.0, 12.0));
    stats.track_stats(single(0.1));
    assert_eq!((stats.frames, stats.window_frames), (4, 1));
    assert_eq!((number(stats.accumulator), number(stats.fps)), (0.1, 12.0));
}

#[test]
fn rates_are_bounded_by_the_frames_of_their_window() {
    let mut stats = FrameStats::default();
    let deltas = [0.1, 0.0, 0.149, 0.002, 0.25, 1e30, f32::MAX, 0.2, 0.1, 1e-40];
    for delta in deltas {
        let frames = stats.window_frames + 1;
        let before = stats.frames;
        stats.track_stats(single(delta));
        assert_eq!(stats.frames, before + 1);
        let lasted = number(stats.accumulator);
        assert!((0.0..0.25).contains(&lasted));
        if stats.window_frames == 0 {
            assert_eq!(lasted, 0.0);
            let rate = number(stats.fps);
            assert!(rate > 0.0 && rate <= 4.0 * frames as f32);
        } else {
            assert_eq!(stats.window_frames, frames);
        }
    }
}

#[test]
fn two_drags_are_one_but_for_rounding() {
    for (a, b) in [(1.0f32, 2.0), (0.3, -0.7), (-13.37, 0.01), (100.0, 99.9), (-0.1, -0.2)] {
        let (mut twice, mut once) = (OrbitCamera::default(), OrbitCamera::default());
        twice.orbit(single(a), single(a));
        twice.orbit(single(b), single(b));
        once.orbit(single(a + b), single(a + b));
        let bound = 10.0 * (1.0 + a.abs() + b.abs()) as f64 / 16777216.0;
        assert!((number(twice.yaw) as f64 - number(once.yaw) as f64).abs() <= bound);
        assert!((number(twice.pitch) as f64 - number(once.pitch) as f64).abs() <= bound);
    }
}

#[test]
fn two_scrolls_are_one_but_for_rounding() {
    for (a, b) in [(1.0f32, 2.0), (0.3, -0.7), (-137.37, 0.01), (500.0, 333.3), (-0.1, -0.2)] {
        let (mut twice, mut once) = (OrbitCamera::default(), OrbitCamera::default());
        twice.zoom(single(a));
        twice.zoom(single(b));
        once.zoom(single(a + b));
        let bound = 10.0 * (7.0 + a.abs() + b.abs()) as f64 / 16777216.0;
        assert!((number(twice.distance) as f64 - number(once.distance) as f64).abs() <= bound);
    }
}

#[test]
fn time_that_is_no_number_closes_no_window() {
    let mut stats = FrameStats::default();
    stats.track_stats(single(f32::NAN));
    stats.track_stats(single(1.0));
    assert!(stats.accumulator.is_nan());
    assert_eq!(stats.window_frames, 2);
}

#[test]
fn every_frame_of_a_run_is_counted() {
    let mut stats = FrameStats::default();
    let mut accumulator = 0.0f32;
    let mut window_frames = 0;
    let mut fps = 0.0;
    for _ in 0..100 {
        accumulator += 0.0167;
        window_frames += 1;
        if accumulator >= 0.25 {
            fps = window_frames as f32 / accumulator;
            accumulator = 0.0;
            window_frames = 0;
        }
        stats.track_stats(single(0.0167));
        assert_eq!((number(stats.fps), stats.window_frames), (fps, window_frames));
    }
    assert_eq!((stats.frames, stats.window_frames), (100, 10));
}

#[test]
fn page_is_told_frames_and_rate() {
    let mut app = start();
    app.stats.track_stats(single(0.5));
    let told = app.stats();
    assert_eq!((told.frames, number(told.fps)), (1, 2.0));
}

#[test]
fn resize_reaches_every_window() {
    let mut app = start();
    let mut windows = vec![
        Window { entity: 4, resolution: resolution(1, 2, None, 1.0) },
        Window { entity: 9, resolution: resolution(3, 4, None, 2.0) },
    ];
    let events = app.resize(size(1024.0, 768.0), &mut windows);
    assert_eq!(
        windows,
        vec![
            Window { entity: 4, resolution: resolution(1024, 768, None, 1.0) },
            Window { entity: 9, resolution: resolution(2048, 1536, None, 2.0) },
        ]
    );
    assert_eq!(
        events,
        vec![
            WindowResized { window: 4, width: single(1024.0), height: single(768.0) },
            WindowResized { window: 9, width: single(1024.0), height: single(768.0) },
        ]
    );
    assert_eq!(app, start());
}

#[test]
fn windows_have_whole_pixels() {
    let mut windows = vec![
        Window { entity: 1, resolution: resolution(9, 9, None, 1.0) },
        Window { entity: 2, resolution: resolution(9, 9, None, 1.5) },
        Window { entity: 3, resolution: resolution(9, 9, Some(2.0), 1.5) },
    ];
    let events = start().resize(size(800.7, 600.4), &mut windows);
    assert_eq!(
        windows,
        vec![
            Window { entity: 1, resolution: resolution(800, 600, None, 1.0) },
            Window { entity: 2, resolution: resolution(1201, 900, None, 1.5) },
            Window { entity: 3, resolution: resolution(1601, 1200, Some(2.0), 1.5) },
        ]
    );
    for event in events {
        assert_eq!((number(event.width), number(event.height)), (800.7, 600.4));
    }
    assert_eq!(BevyApp::new(size(800.7, 0.9)).opening, resolution(800, 0, None, 1.0));
}

#[test]
fn resolutions_are_those_of_the_engine() {
    let sizes = [0.0f32, -0.0, 0.99, 1.0, 7.5, 1023.999, 1e9, 4294967000.0, 5e9, -3.0, 1e-40];
    let odd = [f32::NAN, f32::INFINITY, f32::NEG_INFINITY];
    for width in sizes.into_iter().chain(odd) {
        for height in [2.5f32, 1e10, f32::NAN] {
            let found = WindowResolution::new(size(width, height));
            let engine = bevy::window::WindowResolution::new(width, height);
            assert_eq!(found.physical_width, engine.physical_width());
            assert_eq!(found.physical_height, engine.physical_height());
            for scale in [1.0f32, 1.25, 2.0, 0.3, f32::NAN] {
                let mut found = resolution(1, 1, None, scale);
                let mut engine = bevy::window::WindowResolution::default();
                engine.set_scale_factor(scale);
                found.set(size(width, height));
                engine.set(width, height);
                assert_eq!(found.physical_width, engine.physical_width());
                assert_eq!(found.physical_height, engine.physical_height());
                let mut found = resolution(1, 1, Some(scale), 3.0);
                let mut engine =
                    bevy::window::WindowResolution::default().with_scale_factor_override(scale);
                found.set(size(width, height));
                engine.set(width, height);
                assert_eq!(found.physical_width, engine.physical_width());
                assert_eq!(found.physical_height, engine.physical_height());
            }
        }
    }
}

#[test]
fn last_size_counts() {
    let mut once = resolution(1, 1, None, 1.5);
    let mut twice = once;
    twice.set(size(33.3, 44.4));
    twice.set(size(101.7, 5.2));
    once.set(size(101.7, 5.2));
    assert_eq!(once, twice);
}

#[test]
fn frames_grow_by_the_ticks_alone() {
    let mut app = start();
    let answers = [
        (PluginsState::Adding, PluginsState::Adding),
        (PluginsState::Adding, PluginsState::Ready),
        (PluginsState::Cleaned, PluginsState::Cleaned),
        (PluginsState::Cleaned, PluginsState::Cleaned),
        (PluginsState::Cleaned, PluginsState::Cleaned),
    ];
    let mut cleaned = 0;
    for (state, again) in answers {
        app.orbit(single(3.0), single(-1.0));
        app.zoom(single(2.0));
        app.set_speed(single(0.5));
        app.set_color(single(0.1), single(0.2), single(0.3));
        app.resize(size(10.0, 10.0), &mut Vec::new());
        app.pick(Some((vector(5.0, 0.0, 0.0), vector(-1.0, 0.0, 0.0))));
        let before = app.stats();
        if app.update(state, again) == Step::Tick {
            app.track_stats(single(0.1));
            cleaned += 1;
        } else {
            assert_eq!(app.stats(), before);
        }
        assert_eq!(app.stats().frames, cleaned);
    }
    assert_eq!(cleaned, 3);
    assert_eq!(number(app.stats().fps), 3.0 / (0.1f32 + 0.1 + 0.1));
}

#[test]
fn rate_is_the_frames_over_their_time() {
    let mut stats = FrameStats::default();
    let windows = [vec![0.1f32, 0.1, 0.1], vec![0.3], vec![0.05, 0.0, 0.19, 0.02]];
    for window in windows {
        let old = stats.fps;
        let mut time = 0.0f32;
        for (n, delta) in window.iter().enumerate() {
            assert_eq!(stats.fps, old);
            assert_eq!(stats.window_frames as usize, n);
            stats.track_stats(single(*delta));
            time += delta;
        }
        assert_eq!(number(stats.fps), window.len() as f32 / time);
        assert_eq!((stats.window_frames, number(stats.accumulator)), (0, 0.0));
    }
    assert_eq!(stats.frames, 8);
}

#[test]
fn larger_input_leaves_no_less() {
    let inputs = [-1e30f32, -900.0, -3.0, -0.1, 0.0, 1e-20, 2.0, 5.5, 700.0, f32::INFINITY];
    for pair in inputs.windows(2) {
        let (mut less, mut more) = (OrbitCamera::default(), OrbitCamera::default());
        less.orbit(single(pair[0]), single(pair[0]));
        more.orbit(single(pair[1]), single(pair[1]));
        less.zoom(single(pair[0]));
        more.zoom(single(pair[1]));
        assert!(number(less.pitch) <= number(more.pitch));
        assert!(number(less.yaw) >= number(more.yaw));
        assert!(number(less.distance) <= number(more.distance));
    }
}

#[test]
fn finite_input_keeps_numbers() {
    let mut camera = OrbitCamera::default();
    for input in [f32::MAX, f32::MAX, -f32::MAX, 1e-40, -3.5, f32::MAX, f32::MAX] {
        camera.orbit(single(input), single(-input));
        camera.zoom(single(input));
        assert!(!number(camera.yaw).is_nan());
        assert!((-1.5..=1.5).contains(&number(camera.pitch)));
        assert!((2.0..=20.0).contains(&number(camera.distance)));
    }
}

#[test]
fn camera_keeps_its_distance_and_off_the_axis() {
    for distance in [2.0f32, 6.3, 20.0] {
        for pitch in [-1.5f32, -0.7, 0.0, 0.32, 1.5] {
            for yaw in [-40.0f32, -1.0, 0.0, 1e-30, 0.4, 3.2] {
                let camera = OrbitCamera {
                    yaw: single(yaw),
                    pitch: single(pitch),
                    distance: single(distance),
                };
                let at = camera.orbit_camera(
                    single(yaw.sin()),
                    single(yaw.cos()),
                    single(pitch.sin()),
                    single(pitch.cos()),
                );
                let [x, y, z] = [at.x, at.y, at.z].map(|c| number(c) as f64);
                let whole = distance as f64 * distance as f64;
                assert!((x * x + y * y + z * z - whole).abs() <= whole / 262144.0);
                assert!(x * x + z * z > 0.0196);
            }
        }
    }
}

#[test]
fn resize_without_windows_sends_nothing() {
    let mut windows: Vec<Window> = Vec::new();
    assert!(start().resize(size(1.0, 1.0), &mut windows).is_empty());
    assert!(windows.is_empty());
}

#[test]
fn pick_is_noted_in_the_state() {
    let mut app = start();
    let ray = (vector(5.0, 0.125, 0.25), vector(-1.0, 0.0, 0.0));
    let report = app.pick(Some(ray)).unwrap();
    assert_eq!(report.face, "+X");
    assert_eq!((number(report.x), number(report.y), number(report.z)), (0.75, 0.125, 0.25));
    let mut expected = start();
    expected.pick.point = Some(vector(0.75, 0.125, 0.25));
    assert_eq!(app, expected);
    assert!(app.pick(None).is_none());
    assert_eq!(app, expected);
}

#[test]
fn scope_is_told_or_unknown() {
    let name = "DedicatedWorkerGlobalScope".to_string();
    assert_eq!(start().context(Some(name)), "DedicatedWorkerGlobalScope");
    assert_eq!(start().context(None), "unknown");
}

#[test]
fn backends_are_told_by_name() {
    let backends = [
        (Backend::Empty, "Empty"),
        (Backend::Vulkan, "Vulkan"),
        (Backend::Metal, "Metal"),
        (Backend::Dx12, "Dx12"),
        (Backend::Gl, "Gl"),
        (Backend::BrowserWebGpu, "BrowserWebGpu"),
    ];
    for (backend, name) in backends {
        let info = RenderAdapterInfo { name: "adapter".to_string(), backend };
        let told = adapter_info(Some(&info)).unwrap();
        assert_eq!(told.adapter, "adapter");
        assert_eq!(told.backend, name);
    }
}

#[test]
fn no_adapter_is_told_before_there_is_one() {
    assert!(start().adapter_info(None).is_none());
    let info = RenderAdapterInfo { name: "gpu".to_string(), backend: Backend::BrowserWebGpu };
    let told = start().adapter_info(Some(&info)).unwrap();
    assert_eq!((told.adapter.as_str(), told.backend.as_str()), ("gpu", "BrowserWebGpu"));
}

#[test]
fn step_for_each_state() {
    let states = [
        PluginsState::Adding,
        PluginsState::Ready,
        PluginsState::Finished,
        PluginsState::Cleaned,
    ];
    for state in states {
        for again in states {
            let expected = if state == PluginsState::Cleaned {
                Step::Tick
            } else if again == PluginsState::Ready {
                Step::FinishAndCleanup
            } else {
                Step::Wait
            };
            assert_eq!(next_step(state, again), expected);
            assert_eq!(start().update(state, again), expected);
        }
    }
}

#[test]
fn plugins_are_cleaned_up_once_and_ticks_follow() {
    let mut cleaned = false;
    let mut steps = Vec::new();
    for frame in 0..8 {
        let state = if cleaned {
            PluginsState::Cleaned
        } else if frame < 3 {
            PluginsState::Adding
        } else {
            PluginsState::Ready
        };
        let step = start().update(state, state);
        cleaned = cleaned || step == Step::FinishAndCleanup;
        steps.push(step);
    }
    let mut expected = vec![Step::Wait; 3];
    expected.push(Step::FinishAndCleanup);
    expected.extend([Step::Tick; 4]);
    assert_eq!(steps, expected);
}

#[test]
fn plugins_that_become_ready_between_the_questions_are_cleaned_up() {
    assert_eq!(
        start().update(PluginsState::Adding, PluginsState::Ready),
        Step::FinishAndCleanup
    );
}

#[test]
fn scene_at_the_start() {
    let mut app = start();
    app.set_color(single(0.2), single(0.4), single(0.6));
    let scene = setup(&app.controls);
    let cube = scene.spinner;
    assert_eq!(cube.transform, rest());
    assert_eq!(cube.edges, vector(1.5, 1.5, 1.5));
    assert_eq!(cube.material.base_color, app.controls.color);
    assert_eq!(cube.material.perceptual_roughness, Some(single(0.4)));
    assert!(!cube.material.unlit);
    assert_eq!(number(cube.marker.radius), 0.1);
    assert_eq!(
        cube.marker.material.base_color,
        Color::srgb(single(1.0), single(0.5), single(0.1))
    );
    assert_eq!(cube.marker.material.perceptual_roughness, None);
    assert!(cube.marker.material.unlit);
    assert_eq!(
        cube.marker.state,
        Marker { transform: rest(), visibility: Visibility::Hidden }
    );
    assert_eq!(number(scene.light.illuminance), 9000.0);
    assert_eq!(scene.light.viewpoint.position, vector(4.0, 8.0, 4.0));
    assert_eq!(scene.camera.viewpoint.position, vector(0.0, 2.0, 6.0));
    for viewpoint in [scene.light.viewpoint, scene.camera.viewpoint] {
        assert_eq!(viewpoint.target, vector(0.0, 0.0, 0.0));
        assert_eq!(viewpoint.up, vector(0.0, 1.0, 0.0));
    }
    assert!(!scene.camera.tonemapping);
}

#[test]
fn marker_of_the_scene_stays_until_a_pick() {
    let state = setup(&Controls::default()).spinner.marker.state;
    let mut markers = vec![state];
    Pick::default().apply_pick(&mut markers);
    assert_eq!(markers, vec![state]);
}

#[test]
fn picked_cube_is_the_drawn_cube() {
    let edge = number(setup(&Controls::default()).spinner.edges.x);
    assert_eq!(edge, 2.0 * f32::from_bits(bevy_worker::pick::CUBE_HALF));
}

//! The state that the page's calls and the frames share.
use crate::adapter::{adapter_info, AdapterInfo, RenderAdapterInfo};
use crate::camera::{
    farthest_distance, highest_pitch, law_camera_limits, law_drag_keeps_limits,
    law_drag_keeps_numbers, law_initial_camera_keeps_limits, law_scroll_keeps_limits,
    law_scroll_keeps_numbers, lowest_pitch, nearest_distance, OrbitCamera,
};
use crate::controls::{Color, Controls};
use crate::lifecycle::{
    cleaned_frames, due, law_cleaned_stays_cleaned, law_cleanup_comes_before_ticks,
    law_cleanup_runs_once, next_step, of_engine, step_at, PluginsState, Step,
};
use crate::pick::{meeting_face, meeting_point, meets_cube, picked_point, Pick, PickResult};
use crate::single::Single;
use crate::stats::{FrameStats, Stats};
use crate::vector::Vec3;
use crate::window::{resize_windows, CanvasSize, Window, WindowResized, WindowResolution};
use vstd::prelude::*;

verus! {

/// The app's own state. The engine's is kept elsewhere.
#[derive(Clone, Copy, PartialEq, Eq, Structural, Debug)]
pub struct BevyApp {
    /// The resolution that the window is opened with.
    pub opening: WindowResolution,
    pub controls: Controls,
    pub camera: OrbitCamera,
    pub pick: Pick,
    pub stats: FrameStats,
}

/// A call of one of the app's methods. An update comes with the two answers that the engine
/// gives and, for the case that the schedule runs, with the length of the frame, which one of
/// the schedule's systems counts.
pub enum Call {
    Update { state: PluginsState, again: PluginsState, delta: Single },
    Resize { size: CanvasSize },
    SetSpeed { speed: Single },
    SetColor { red: Single, green: Single, blue: Single },
    Orbit { delta_yaw: Single, delta_pitch: Single },
    Zoom { amount: Single },
    Pick { ray: Option<(Vec3, Vec3)> },
    Stats,
    AdapterInfo,
    Context,
}

/// The name of the global scope where it cannot be told.
pub open spec fn unknown_scope() -> Seq<char> {
    "unknown"@
}

impl BevyApp {
    /// The camera keeps to its limits, and the frame counts agree.
    pub open spec fn wf(self) -> bool {
        self.camera.wf() && self.stats.wf()
    }

    /// The state at the start, for a canvas of the given size.
    pub open spec fn initial(canvas_size: CanvasSize) -> BevyApp {
        BevyApp {
            opening: WindowResolution::of_size(canvas_size),
            controls: Controls::initial(),
            camera: OrbitCamera::initial(),
            pick: Pick::initial(),
            stats: FrameStats::initial(),
        }
    }

    /// The state after a call.
    pub open spec fn called(self, call: Call) -> BevyApp {
        match call {
            Call::Update { state, again, delta } => if due(state, again) == Step::Tick {
                BevyApp { stats: self.stats.counted(delta), ..self }
            } else {
                self
            },
            Call::SetSpeed { speed } => BevyApp {
                controls: Controls { speed, ..self.controls },
                ..self
            },
            Call::SetColor { red, green, blue } => BevyApp {
                controls: Controls { color: Color { red, green, blue }, ..self.controls },
                ..self
            },
            Call::Orbit { delta_yaw, delta_pitch } => BevyApp {
                camera: self.camera.turned(delta_yaw, delta_pitch),
                ..self
            },
            Call::Zoom { amount } => BevyApp { camera: self.camera.moved(amount), ..self },
            Call::Pick { ray } => BevyApp { pick: self.pick.after(picked_point(ray)), ..self },
            Call::Resize { .. } | Call::Stats | Call::AdapterInfo | Call::Context => self,
        }
    }

    /// The state after a run of calls.
    pub open spec fn called_all(self, calls: Seq<Call>) -> BevyApp
        decreases calls.len(),
    {
        if calls.len() == 0 {
            self
        } else {
            self.called_all(calls.drop_last()).called(calls.last())
        }
    }

    /// The state at the start, for a canvas of the given size.
    pub fn new(canvas_size: CanvasSize) -> (r: BevyApp)
        ensures
            r == BevyApp::initial(canvas_size),
            r.wf(),
            r.opening == WindowResolution::of_size(canvas_size),
            r.controls == Controls::initial(),
            r.camera == OrbitCamera::initial(),
            r.pick.point is None,
            r.stats == FrameStats::initial(),
    {
        BevyApp {
            opening: WindowResolution::new(canvas_size),
            controls: Controls::default(),
            camera: OrbitCamera::default(),
            pick: Pick::default(),
            stats: FrameStats::default(),
        }
    }

    /// What to do in a frame that asks for the plugins' state and finds `state`, and, asking
    /// once more, `again`.
    pub fn update(&self, state: PluginsState, again: PluginsState) -> (r: Step)
        ensures
            r == due(state, again),
            forall|delta: Single|
                r != Step::Tick ==> #[trigger] self.called(Call::Update { state, again, delta })
                    == *self,
    {
        next_step(state, again)
    }

    /// Counts a frame of `delta` seconds, in which the schedule runs.
    pub fn track_stats(&mut self, delta: Single)
        requires
            old(self).stats.frames < u64::MAX,
            old(self).stats.window_frames < u32::MAX,
        ensures
            forall|state: PluginsState, again: PluginsState|
                due(state, again) == Step::Tick ==> *final(self) == #[trigger] old(self).called(
                    Call::Update { state, again, delta },
                ),
            *final(self) == (BevyApp { stats: old(self).stats.counted(delta), ..*old(self) }),
            old(self).wf() ==> final(self).wf(),
    {
        self.stats.track_stats(delta);
    }

    /// Takes over a new size of the canvas: sets all windows to it. Returns the events to
    /// send, one for each window in their order.
    pub fn resize(&mut self, size: CanvasSize, windows: &mut Vec<Window>) -> (r: Vec<WindowResized>)
        ensures
            *final(self) == old(self).called(Call::Resize { size }),
            *final(self) == *old(self),
            final(windows)@ == old(windows)@.map_values(|window: Window| window.resized(size)),
            r@ == old(windows)@.map_values(
                |window: Window|
                    WindowResized { window: window.entity, width: size.width, height: size.height },
            ),
    {
        resize_windows(size, windows)
    }

    /// Sets how fast the cube spins.
    pub fn set_speed(&mut self, speed: Single)
        ensures
            *final(self) == old(self).called(Call::SetSpeed { speed }),
            *final(self) == (BevyApp {
                controls: Controls { speed, ..old(self).controls },
                ..*old(self)
            }),
            old(self).wf() ==> final(self).wf(),
    {
        self.controls.speed = speed;
    }

    /// Sets the cube's colour.
    pub fn set_color(&mut self, red: Single, green: Single, blue: Single)
        ensures
            *final(self) == old(self).called(Call::SetColor { red, green, blue }),
            *final(self) == (BevyApp {
                controls: Controls { color: Color { red, green, blue }, ..old(self).controls },
                ..*old(self)
            }),
            old(self).wf() ==> final(self).wf(),
    {
        self.controls.color = Color::srgb(red, green, blue);
    }

    /// Turns the camera by a drag.
    pub fn orbit(&mut self, delta_yaw: Single, delta_pitch: Single)
        ensures
            *final(self) == old(self).called(Call::Orbit { delta_yaw, delta_pitch }),
            *final(self) == (BevyApp {
                camera: old(self).camera.turned(delta_yaw, delta_pitch),
                ..*old(self)
            }),
            old(self).wf() ==> final(self).wf(),
    {
        self.camera.orbit(delta_yaw, delta_pitch);
    }

    /// Moves the camera by scrolling.
    pub fn zoom(&mut self, amount: Single)
        ensures
            *final(self) == old(self).called(Call::Zoom { amount }),
            *final(self) == (BevyApp { camera: old(self).camera.moved(amount), ..*old(self) }),
            old(self).wf() ==> final(self).wf(),
    {
        self.camera.zoom(amount);
    }

    /// The frames so far and the frame rate.
    pub fn stats(&self) -> (r: Stats)
        ensures
            r == (Stats { frames: self.stats.frames, fps: self.stats.fps }),
    {
        Stats { frames: self.stats.frames, fps: self.stats.fps }
    }

    /// What the engine draws with, once it has an adapter.
    pub fn adapter_info(&self, info: Option<&RenderAdapterInfo>) -> (r: Option<AdapterInfo>)
        ensures
            info matches Some(info) ==> (r matches Some(told) && told.adapter@ == info.name@
                && told.backend@ == info.backend.name()),
            info is None ==> r is None,
    {
        adapter_info(info)
    }

    /// Picks the point where a ray meets the cube, and reports the point and the face. The
    /// ray is given by its origin and direction in the cube's coordinates. A click without a
    /// ray, or with one that misses the cube, changes nothing.
    pub fn pick(&mut self, ray: Option<(Vec3, Vec3)>) -> (r: Option<PickResult>)
        ensures
            *final(self) == old(self).called(Call::Pick { ray }),
            *final(self) == (BevyApp {
                pick: old(self).pick.after(picked_point(ray)),
                ..*old(self)
            }),
            r is Some <==> picked_point(ray) is Some,
            r matches Some(report) ==> {
                &&& ray matches Some((origin, direction))
                &&& report.face@ == meeting_face(origin, direction)
                &&& (Vec3 { x: report.x, y: report.y, z: report.z }) == meeting_point(
                    origin,
                    direction,
                )
            },
            old(self).wf() ==> final(self).wf(),
    {
        self.pick.pick(ray)
    }

    /// The name of the global scope that the app runs in, as far as it can be told.
    pub fn context(&self, name: Option<String>) -> (r: String)
        ensures
            r@ == match name {
                Some(name) => name@,
                None => unknown_scope(),
            },
    {
        match name {
            Some(name) => name,
            None => "unknown".to_owned(),
        }
    }
}

/// A scope that cannot be told is called unknown.
pub proof fn law_unknown_scope_is_called_so()
    ensures
        unknown_scope() == seq!['u', 'n', 'k', 'n', 'o', 'w', 'n'],
{
    reveal_strlit("unknown");
}

/// The number of calls of a run in which the schedule runs.
pub open spec fn ticks(calls: Seq<Call>) -> nat
    decreases calls.len(),
{
    if calls.len() == 0 {
        0
    } else {
        ticks(calls.drop_last()) + match calls.last() {
            Call::Update { state, again, .. } if due(state, again) == Step::Tick => 1nat,
            _ => 0,
        }
    }
}

/// The answers that the engine gives to the updates of a run.
pub open spec fn answers(calls: Seq<Call>) -> Seq<(PluginsState, PluginsState)>
    decreases calls.len(),
{
    if calls.len() == 0 {
        Seq::empty()
    } else {
        match calls.last() {
            Call::Update { state, again, .. } => answers(calls.drop_last()).push((state, again)),
            _ => answers(calls.drop_last()),
        }
    }
}

/// The numbers that a call hands over to the camera are finite.
pub open spec fn moves_finitely(call: Call) -> bool {
    match call {
        Call::Orbit { delta_yaw, delta_pitch } => delta_yaw.finite() && delta_pitch.finite(),
        Call::Zoom { amount } => amount.finite(),
        _ => true,
    }
}

/// Over any mix of calls the frames grow by exactly the ticks. A run without a tick leaves all
/// counts as they are, the rate too.
pub proof fn law_frames_grow_by_ticks(app: BevyApp, calls: Seq<Call>)
    requires
        app.stats.frames + ticks(calls) <= u64::MAX,
    ensures
        app.called_all(calls).stats.frames == app.stats.frames + ticks(calls),
        ticks(calls) == 0 ==> app.called_all(calls).stats == app.stats,
    decreases calls.len(),
{
    if calls.len() > 0 {
        law_frames_grow_by_ticks(app, calls.drop_last());
    }
}

/// Every app starts alike, but for the resolution that its window is opened with, which comes
/// from the canvas.
pub proof fn law_apps_start_alike(size: CanvasSize, other: CanvasSize)
    ensures
        ({
            let (app, twin) = (BevyApp::initial(size), BevyApp::initial(other));
            &&& app == (BevyApp { opening: app.opening, ..twin })
            &&& app.opening == WindowResolution::of_size(size)
            &&& app.controls == Controls::initial()
            &&& app.camera == OrbitCamera::initial()
            &&& app.pick.point is None
            &&& app.stats == FrameStats::initial()
        }),
{
}

/// Every call changes its own part of the state and no other, and what the page sets is what is
/// set.
pub proof fn law_calls_change_their_own_part(app: BevyApp, call: Call)
    ensures
        app.called(call).opening == app.opening,
        call matches Call::SetSpeed { speed } ==> app.called(call).controls.speed == speed,
        !(call is SetSpeed) ==> app.called(call).controls.speed == app.controls.speed,
        call matches Call::SetColor { red, green, blue } ==> app.called(call).controls.color == (
        Color { red, green, blue }),
        !(call is SetColor) ==> app.called(call).controls.color == app.controls.color,
        !(call is Orbit) && !(call is Zoom) ==> app.called(call).camera == app.camera,
        !(call is Pick) ==> app.called(call).pick == app.pick,
        !(call is Update) ==> app.called(call).stats == app.stats,
        call matches Call::Orbit { delta_yaw, delta_pitch } ==> app.called(call).camera
            == app.camera.turned(delta_yaw, delta_pitch),
        call matches Call::Zoom { amount } ==> app.called(call).camera == app.camera.moved(amount),
        call matches Call::Pick { ray: None } ==> app.called(call).pick == app.pick,
        call matches Call::Pick { ray: Some((origin, direction)) } ==> app.called(call).pick.point
            == if meets_cube(origin, direction) {
            Some(meeting_point(origin, direction))
        } else {
            app.pick.point
        },
        call matches Call::Update { state, again, delta } ==> (state != PluginsState::Cleaned
            ==> app.called(call).stats == app.stats),
        call matches Call::Update { state, again, delta } ==> (state == PluginsState::Cleaned
            ==> app.called(call).stats == app.stats.counted(delta)),
{
}

/// Of the speeds that a run of calls sets, the last counts, whatever else is called.
pub proof fn law_last_speed_counts(app: BevyApp, calls: Seq<Call>, last: int, speed: Single)
    requires
        0 <= last < calls.len(),
        calls[last] == (Call::SetSpeed { speed }),
        forall|i: int| last < i < calls.len() ==> !(#[trigger] calls[i] is SetSpeed),
    ensures
        app.called_all(calls).controls.speed == speed,
    decreases calls.len(),
{
    let rest = calls.drop_last();
    law_calls_change_their_own_part(app.called_all(rest), calls.last());
    if last < calls.len() - 1 {
        assert(rest[last] == calls[last]);
        assert(!(calls[calls.len() - 1] is SetSpeed));
        law_last_speed_counts(app, rest, last, speed);
    }
}

/// Of the colours that a run of calls sets, the last counts, whatever else is called.
pub proof fn law_last_color_counts(app: BevyApp, calls: Seq<Call>, last: int, color: Color)
    requires
        0 <= last < calls.len(),
        calls[last] == (Call::SetColor { red: color.red, green: color.green, blue: color.blue }),
        forall|i: int| last < i < calls.len() ==> !(#[trigger] calls[i] is SetColor),
    ensures
        app.called_all(calls).controls.color == color,
    decreases calls.len(),
{
    let rest = calls.drop_last();
    law_calls_change_their_own_part(app.called_all(rest), calls.last());
    if last < calls.len() - 1 {
        assert(rest[last] == calls[last]);
        assert(!(calls[calls.len() - 1] is SetColor));
        law_last_color_counts(app, rest, last, color);
    }
}

/// The schedule runs in exactly the updates that find the plugins cleaned up.
proof fn lemma_ticks_are_cleaned_frames(calls: Seq<Call>)
    ensures
        ticks(calls) == cleaned_frames(answers(calls)),
        ticks(calls) <= calls.len(),
    decreases calls.len(),
{
    if calls.len() > 0 {
        lemma_ticks_are_cleaned_frames(calls.drop_last());
        let rest = answers(calls.drop_last());
        if let Call::Update { state, again, .. } = calls.last() {
            assert(rest.push((state, again)).drop_last() == rest);
        }
    }
}

/// From the start, over any mix of calls: the frames that the page is told are the updates that
/// found the plugins cleaned up. The plugins are cleaned up once at most, in an update before
/// all of these, and stay so.
pub proof fn law_updates_clean_up_once_and_then_count(
    canvas_size: CanvasSize,
    calls: Seq<Call>,
    i: int,
    j: int,
)
    requires
        calls.len() <= u64::MAX,
        of_engine(answers(calls)),
        0 <= i < answers(calls).len(),
        0 <= j < answers(calls).len(),
    ensures
        BevyApp::initial(canvas_size).called_all(calls).stats.frames == cleaned_frames(
            answers(calls),
        ),
        step_at(answers(calls), i) == Step::Tick <==> answers(calls)[i].0 == PluginsState::Cleaned,
        step_at(answers(calls), i) == Step::FinishAndCleanup && step_at(answers(calls), j)
            == Step::FinishAndCleanup ==> i == j,
        step_at(answers(calls), i) == Step::FinishAndCleanup && step_at(answers(calls), j)
            == Step::Tick ==> i < j,
        answers(calls)[i].0 == PluginsState::Cleaned && i <= j ==> answers(calls)[j].0
            == PluginsState::Cleaned,
{
    let told = answers(calls);
    lemma_ticks_are_cleaned_frames(calls);
    law_frames_grow_by_ticks(BevyApp::initial(canvas_size), calls);
    if step_at(told, i) == Step::FinishAndCleanup && step_at(told, j) == Step::FinishAndCleanup {
        law_cleanup_runs_once(told, i, j);
    }
    if step_at(told, i) == Step::FinishAndCleanup && step_at(told, j) == Step::Tick {
        law_cleanup_comes_before_ticks(told, i, j);
    }
    if told[i].0 == PluginsState::Cleaned && i <= j {
        law_cleaned_stays_cleaned(told, i, j);
    }
}

/// From the start, over any mix of calls with finite numbers, the camera's coordinates are
/// numbers, and its pitch and distance keep to their limits.
pub proof fn law_camera_always_holds_numbers(canvas_size: CanvasSize, calls: Seq<Call>)
    requires
        forall|i: int| 0 <= i < calls.len() ==> moves_finitely(#[trigger] calls[i]),
    ensures
        ({
            let camera = BevyApp::initial(canvas_size).called_all(calls).camera;
            &&& camera.numeric()
            &&& camera.wf()
            &&& camera.pitch.ge(lowest_pitch()) && highest_pitch().ge(camera.pitch)
            &&& camera.distance.ge(nearest_distance()) && farthest_distance().ge(camera.distance)
        }),
    decreases calls.len(),
{
    if calls.len() == 0 {
        law_initial_camera_keeps_limits();
    } else {
        let rest = calls.drop_last();
        let camera = BevyApp::initial(canvas_size).called_all(rest).camera;
        law_camera_always_holds_numbers(canvas_size, rest);
        assert(moves_finitely(calls[calls.len() - 1]));
        law_camera_limits();
        match calls.last() {
            Call::Orbit { delta_yaw, delta_pitch } => {
                law_drag_keeps_numbers(camera, delta_yaw, delta_pitch);
                law_drag_keeps_limits(camera, delta_yaw, delta_pitch);
            },
            Call::Zoom { amount } => {
                law_scroll_keeps_numbers(camera, amount);
                law_scroll_keeps_limits(camera, amount);
            },
            _ => {},
        }
    }
}

} // verus!

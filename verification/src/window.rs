//! Windows and the handle of the canvas that stands in for one.
//!
//! The engine draws to windows. Here there is no window but a canvas that was handed
//! over to a worker thread, and that only this thread may touch.
use crate::pixels::{counts_pixels, law_window_opens_with_canvas, lemma_side_pixels};
use crate::ray::ONE;
use crate::single::Single;
use vstd::arithmetic::power2::pow2;
use vstd::prelude::*;
use vstd::std_specs::cmp::PartialEqSpec;

verus! {

/// The size of the canvas, as the page gives it. It need not be a whole number of pixels.
#[derive(Clone, Copy, PartialEq, Eq, Structural, Debug)]
pub struct CanvasSize {
    pub width: Single,
    pub height: Single,
}

/// The size of a window in whole physical pixels, and how many of them make a logical one.
#[derive(Clone, Copy, PartialEq, Eq, Structural, Debug)]
pub struct WindowResolution {
    pub physical_width: u32,
    pub physical_height: u32,
    /// The ratio that is used in place of `scale_factor`, if there is one.
    pub scale_factor_override: Option<Single>,
    pub scale_factor: Single,
}

impl WindowResolution {
    /// A window of the given size in physical pixels. What is less than a pixel is cut off,
    /// and a physical pixel is a logical one.
    pub open spec fn of_size(size: CanvasSize) -> WindowResolution {
        WindowResolution {
            physical_width: size.width.whole(),
            physical_height: size.height.whole(),
            scale_factor_override: None,
            scale_factor: Single { bits: ONE },
        }
    }

    /// The ratio of physical pixels to logical ones.
    pub open spec fn ratio(self) -> Single {
        match self.scale_factor_override {
            Some(ratio) => ratio,
            None => self.scale_factor,
        }
    }

    /// The resolution after it was set to the given size in logical pixels. What is less than
    /// a physical pixel is cut off.
    pub open spec fn resized(self, size: CanvasSize) -> WindowResolution {
        WindowResolution {
            physical_width: size.width.product(self.ratio()).whole(),
            physical_height: size.height.product(self.ratio()).whole(),
            ..self
        }
    }

    /// A window of the given size in physical pixels.
    pub fn new(size: CanvasSize) -> (r: WindowResolution)
        ensures
            r == WindowResolution::of_size(size),
            !size.width.nan() && pow2(149) <= size.width.value() < 0x1_0000_0000 * pow2(149)
                ==> r.physical_width * pow2(149) <= size.width.value() < (r.physical_width + 1)
                * pow2(149),
            !size.height.nan() && pow2(149) <= size.height.value() < 0x1_0000_0000 * pow2(149)
                ==> r.physical_height * pow2(149) <= size.height.value() < (r.physical_height + 1)
                * pow2(149),
    {
        proof {
            law_window_opens_with_canvas(size);
        }
        WindowResolution {
            physical_width: size.width.to_count(),
            physical_height: size.height.to_count(),
            scale_factor_override: None,
            scale_factor: Single::from_bits(ONE),
        }
    }

    /// Sets the size in logical pixels.
    pub fn set(&mut self, size: CanvasSize)
        ensures
            *final(self) == old(self).resized(size),
            size.width.finite() && old(self).ratio().finite() ==> counts_pixels(
                final(self).physical_width,
                size.width.value() * old(self).ratio().value(),
            ),
            size.height.finite() && old(self).ratio().finite() ==> counts_pixels(
                final(self).physical_height,
                size.height.value() * old(self).ratio().value(),
            ),
            final(self).ratio() == old(self).ratio(),
    {
        proof {
            if old(self).ratio().finite() {
                if size.width.finite() {
                    lemma_side_pixels(size.width, old(self).ratio());
                }
                if size.height.finite() {
                    lemma_side_pixels(size.height, old(self).ratio());
                }
            }
        }
        let ratio = match self.scale_factor_override {
            Some(ratio) => ratio,
            None => self.scale_factor,
        };
        self.physical_width = size.width.times(ratio).to_count();
        self.physical_height = size.height.times(ratio).to_count();
    }
}

/// A window of the engine, by its entity's bits, and its resolution.
#[derive(Clone, Copy, PartialEq, Eq, Structural, Debug)]
pub struct Window {
    pub entity: u64,
    pub resolution: WindowResolution,
}

impl Window {
    /// The window after it was given the size of the canvas.
    pub open spec fn resized(self, size: CanvasSize) -> Window {
        Window { entity: self.entity, resolution: self.resolution.resized(size) }
    }
}

/// The event that tells the engine that a window has a new size.
#[derive(Clone, Copy, PartialEq, Eq, Structural, Debug)]
pub struct WindowResized {
    pub window: u64,
    pub width: Single,
    pub height: Single,
}

/// Sets every window to the size of the canvas. Returns the events to send, one for each
/// window in their order. They tell the size as the page gave it.
pub fn resize_windows(size: CanvasSize, windows: &mut Vec<Window>) -> (r: Vec<WindowResized>)
    ensures
        final(windows)@ == old(windows)@.map_values(|window: Window| window.resized(size)),
        r@ == old(windows)@.map_values(
            |window: Window|
                WindowResized { window: window.entity, width: size.width, height: size.height },
        ),
{
    let mut resized_windows: Vec<u64> = Vec::new();
    let mut index: usize = 0;
    while index < windows.len()
        invariant
            index <= windows.len(),
            windows.len() == old(windows).len(),
            resized_windows@ == old(windows)@.take(index as int).map_values(
                |window: Window| window.entity,
            ),
            forall|i: int|
                0 <= i < index ==> #[trigger] windows@[i] == old(windows)@[i].resized(size),
            forall|i: int|
                index <= i < windows.len() ==> #[trigger] windows@[i] == old(windows)@[i],
        decreases windows.len() - index,
    {
        let mut window = windows[index];
        window.resolution.set(size);
        windows.set(index, window);
        resized_windows.push(window.entity);
        index = index + 1;
    }
    let mut events: Vec<WindowResized> = Vec::new();
    let mut next: usize = 0;
    while next < resized_windows.len()
        invariant
            next <= resized_windows.len(),
            events@ == resized_windows@.take(next as int).map_values(
                |window: u64| WindowResized { window, width: size.width, height: size.height },
            ),
        decreases resized_windows.len() - next,
    {
        events.push(
            WindowResized {
                window: resized_windows[next],
                width: size.width,
                height: size.height,
            },
        );
        next = next + 1;
    }
    events
}

/// Of two sizes that a window is set to in turn, the last counts.
pub proof fn law_last_size_counts(window: Window, first: CanvasSize, last: CanvasSize)
    ensures
        window.resized(first).resized(last) == window.resized(last),
{
}

/// The window to give the canvas' handle to: the first of those that were added.
pub fn setup_added_window(new_windows: &Vec<u64>) -> (r: Option<u64>)
    ensures
        r == if new_windows@.len() == 0 { None::<u64> } else { Some(new_windows@[0]) },
{
    if new_windows.len() == 0 {
        None
    } else {
        Some(new_windows[0])
    }
}

/// The raw handle of a window or canvas. It is passed on and never looked into.
#[verifier::external_type_specification]
#[verifier::external_body]
pub struct ExRawWindowHandle(raw_window_handle::RawWindowHandle);

/// The handle of a display. It is passed on and never looked into.
#[verifier::external_type_specification]
#[verifier::external_body]
pub struct ExDisplayHandle<'a>(raw_window_handle::DisplayHandle<'a>);

/// `raw_window_handle::DisplayHandle::web` makes the handle of the web's display from
/// nothing. Nothing is claimed of it.
pub assume_specification[ raw_window_handle::DisplayHandle::<'static>::web ]() -> (r:
    raw_window_handle::DisplayHandle<'static>)
;

/// Why a handle is not handed out.
#[derive(Clone, Copy, PartialEq, Eq, Structural, Debug)]
pub enum HandleError {
    /// The handle cannot be had here.
    NotSupported,
    /// The handle cannot be had now.
    Unavailable,
}

/// The handle of an offscreen canvas, with the identity `T` of the thread that made it. It
/// is reached only through the methods, which check the thread.
pub struct OffscreenWindowHandle<T> {
    window_handle: raw_window_handle::RawWindowHandle,
    display_handle: raw_window_handle::DisplayHandle<'static>,
    thread_id: T,
}

impl<T: PartialEq> OffscreenWindowHandle<T> {
    /// The canvas' raw handle.
    pub closed spec fn window(self) -> raw_window_handle::RawWindowHandle {
        self.window_handle
    }

    /// The handle of the display.
    pub closed spec fn display(self) -> raw_window_handle::DisplayHandle<'static> {
        self.display_handle
    }

    /// The thread that made the handle.
    pub closed spec fn maker(self) -> T {
        self.thread_id
    }

    /// The handle of the canvas with the given raw handle, made on the given thread. Its
    /// display is the web's.
    pub fn new(window_handle: raw_window_handle::RawWindowHandle, thread_id: T) -> (r: Self)
        ensures
            r.window() == window_handle,
            r.maker() == thread_id,
            call_ensures(raw_window_handle::DisplayHandle::<'static>::web, (), r.display()),
    {
        OffscreenWindowHandle {
            window_handle,
            display_handle: raw_window_handle::DisplayHandle::web(),
            thread_id,
        }
    }

    /// The canvas' raw handle, for use on the given thread. Only the thread that made the
    /// handle gets it, as `T` compares threads.
    pub fn window_handle(&self, current: &T) -> (r: Result<
        &raw_window_handle::RawWindowHandle,
        HandleError,
    >)
        ensures
            exists|same: bool|
                {
                    &&& #[trigger] call_ensures(T::eq, (&self.maker(), current), same)
                    &&& r == if same {
                        Ok(&self.window())
                    } else {
                        Err(HandleError::NotSupported)
                    }
                },
            T::obeys_eq_spec() ==> r == if self.maker().eq_spec(current) {
                Ok(&self.window())
            } else {
                Err(HandleError::NotSupported)
            },
    {
        let same = self.thread_id.eq(current);
        if !same {
            return Err(HandleError::NotSupported);
        }
        Ok(&self.window_handle)
    }

    /// The handle of the display. Every thread gets it.
    pub fn display_handle(&self) -> (r: Result<
        &raw_window_handle::DisplayHandle<'static>,
        HandleError,
    >)
        ensures
            r == Ok::<_, HandleError>(&self.display()),
    {
        Ok(&self.display_handle)
    }
}

} // verus!

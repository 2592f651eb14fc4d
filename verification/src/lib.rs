//! A spinning cube, run by an engine off the page's main thread: what the page can ask of
//! it, what each frame does, and where a click meets the cube.
pub mod accuracy;
pub mod adapter;
pub mod aim;
pub mod app;
pub mod arithmetic;
pub mod beyond;
pub mod camera;
pub mod closest;
pub mod controls;
pub mod exact;
pub mod lifecycle;
pub mod motion;
pub mod numbers;
pub mod orbit;
pub mod pick;
pub mod pixels;
pub mod ray;
pub mod rounding;
pub mod scaling;
pub mod scene;
pub mod single;
pub mod start;
pub mod stats;
pub mod surface;
pub mod symmetry;
pub mod transform;
pub mod vector;
pub mod viewport;
pub mod window;

pub use crate::adapter::AdapterInfo;
pub use crate::app::BevyApp;
pub use crate::pick::PickResult;
pub use crate::stats::Stats;
pub use crate::window::CanvasSize;

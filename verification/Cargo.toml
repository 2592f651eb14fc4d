[package]
name = "bevy_worker"
version = "0.1.0"
edition = "2021"
publish = false

[dependencies]
bevy = { version = "0.16", default-features = false, features = ["bevy_core_pipeline", "bevy_pbr", "bevy_render", "bevy_window", "webgpu"] }
js-sys = "0.3"
raw-window-handle = "0.6"
serde = { version = "1", features = ["derive"] }
tsify-next = "0.5"
wasm-bindgen = "0.2"
web-sys = { version = "0.3", features = ["OffscreenCanvas"] }
wgpu-types = "24"

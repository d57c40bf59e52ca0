[package]
name = "minefield"
version = "0.1.0"
edition = "2021"
publish = false

[dependencies]
rand = { version = "=0.8.8", features = ["small_rng"] }
bevy = { version = "0.6", default-features = false, features = ["render", "bevy_winit", "png"] }
bevy-ui-navigation = "0.13"
bevy-ui-build-macros = "0.2"
wasm-bindgen = "0.2"
console_error_panic_hook = "0.1"
web-sys = "0.3"

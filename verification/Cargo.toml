[package]
name = "fluid_sim"
version = "0.1.0"
edition = "2021"
publish = false

[dependencies]
bevy = { version = "0.15", default-features = false, features = ["bevy_winit", "bevy_sprite", "bevy_core_pipeline", "bevy_render", "bevy_asset", "multi_threaded", "x11"] }
rand = "0.8"

[package]
name = "protect_it"
version = "0.1.0"
edition = "2021"
publish = false

[dependencies]
bevy = { version = "0.8", default-features = false, features = ["bevy_asset", "bevy_render", "bevy_core_pipeline", "bevy_sprite", "bevy_winit", "png", "x11"] }
bevy_ecs_tilemap = "0.7"
rand = "0.8"

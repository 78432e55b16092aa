[package]
name = "pbr_lighting"
version = "0.1.0"
edition = "2021"
publish = false

[dependencies]
bevy_app = { version = "0.15", default-features = false }
bevy_asset = { version = "0.15", default-features = false }
bevy_color = { version = "0.15", default-features = false }
bevy_core_pipeline = { version = "0.15", default-features = false }
bevy_ecs = { version = "0.15", default-features = false }
bevy_render = { version = "0.15", default-features = false }
bevy_transform = { version = "0.15", default-features = false }

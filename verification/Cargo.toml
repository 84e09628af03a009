[package]
name = "voxel_world"
version = "0.1.0"
edition = "2021"
publish = false

[dependencies]
anyhow = "=1.0.104"
async-channel = "=2.5.0"
bevy = { version = "=0.16.1", default-features = false, features = ["bevy_asset", "bevy_color", "bevy_core_pipeline", "bevy_log", "bevy_pbr", "bevy_render", "bevy_window", "multi_threaded", "std"] }
bevy_atmosphere = "=0.13.0"
bevy_pbr = "=0.16.1"
bevy_rapier3d = { version = "=0.30.0", default-features = false, features = ["dim3", "async-collider"] }
fastnbt = "=2.6.3"
flate2 = "=1.1.10"
futures = "=0.3.34"
image = { version = "=0.25.10", default-features = false, features = ["png"] }
mca = "=1.1.0"
noise = "=0.9.0"
rand = "=0.8.8"
rand_chacha = "=0.3.1"
serde = { version = "=1.0.229", features = ["derive"] }
serde_json = "=1.0.154"

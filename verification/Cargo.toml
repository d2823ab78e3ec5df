[package]
name = "biot_savart"
version = "0.1.0"
edition = "2021"
publish = false

[dependencies]
nalgebra = "0.34"
bevy = { version = "0.17", default-features = false, features = ["std", "bevy_pbr", "bevy_gizmos", "bevy_log"] }

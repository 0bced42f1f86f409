[package]
name = "jackdaw_api"
version = "0.1.0"
edition = "2021"
publish = false

[dependencies]
bevy = { version = "=0.17.3", default-features = false }
avian3d = { version = "=0.4.1", default-features = false, features = ["3d", "f32", "parry-f32", "default-collider", "collider-from-mesh"] }
bevy_enhanced_input = { version = "=0.19.3", default-features = false }

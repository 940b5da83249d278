[package]
name = "bevy_dice"
version = "0.4.0"
edition = "2021"
publish = false

[dependencies]
rand = "0.8"
serde_json = "1"
bevy = { version = "0.19", default-features = false }
avian3d = { version = "0.7", default-features = false, features = ["3d", "f32", "parry-f32"] }

[package]
name = "void_a_nomicon"
version = "0.1.0"
edition = "2021"
publish = false

[dependencies]
ron = "0.8"
serde = { version = "1", features = ["derive"] }
thiserror = "1"
rand = "0.8"
bevy = { version = "0.8", default-features = false, features = ["bevy_asset", "bevy_audio", "bevy_winit", "render", "png", "wav", "x11"] }

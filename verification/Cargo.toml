[package]
name = "poetry_game"
version = "0.1.0"
edition = "2021"
publish = false

[dependencies]
rand = "=0.10.3"
serde = { version = "=1.0.229", features = ["derive"] }
bevy = { version = "=0.19.1", default-features = false, features = ["bevy_asset", "bevy_state", "bevy_log", "bevy_ui", "bevy_window", "bevy_picking", "bevy_color", "bevy_image", "bevy_camera"] }
bevy_common_assets = { version = "=0.17.0", default-features = false, features = ["ron"] }

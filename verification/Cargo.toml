[package]
name = "snake_chain"
version = "0.1.0"
edition = "2021"

[dependencies]
bevy = { version = "0.15", default-features = false, features = ["bevy_sprite", "bevy_window", "bevy_winit", "x11"] }

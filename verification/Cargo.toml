[package]
name = "coherent_items"
version = "0.1.0"
edition = "2021"
publish = false

[dependencies]
bevy = { version = "=0.19.1", default-features = false, features = ["std", "bevy_window"] }
serde = { version = "=1.0.229", features = ["derive"] }

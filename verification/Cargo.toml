[package]
name = "monster_hell"
version = "0.1.0"
edition = "2021"
publish = false

[dependencies]
rand = "0.8.5"
serde = { version = "1", features = ["derive"] }
serde_yaml = "0.9"
thiserror = "1"
bevy_app = "0.14"
bevy_ecs = "0.14"

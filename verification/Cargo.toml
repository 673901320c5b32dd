[package]
name = "dungeon_core"
version = "0.1.0"
edition = "2021"
publish = false

[dependencies]
uuid = { version = "0.8", features = ["v4"] }
fastrand = "1"
serde = { version = "1", features = ["derive"] }
serde_json = "1"

[package]
name = "imp"
version = "0.1.0"
edition = "2021"
publish = false

[dependencies]
nom = "3"
serde = { version = "1", features = ["derive"] }
serde_derive = "1"
serde_json = "1"
websocket = { version = "*", default-features = false, features = ["sync"] }

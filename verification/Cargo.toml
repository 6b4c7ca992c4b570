[package]
name = "testdeck"
version = "0.1.0"
edition = "2021"
publish = false

[dependencies]
rusqlite = { version = "0.29", features = ["bundled"] }
serde = { version = "1", features = ["derive"] }
serde_json = "1"

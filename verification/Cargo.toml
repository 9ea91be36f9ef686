[package]
name = "diet_manager"
version = "0.1.0"
edition = "2021"
publish = false

[dependencies]
chrono = "0.4"
colored = "2"
serde = { version = "1", features = ["derive"] }
serde_json = "1"

[package]
name = "cargo_lock"
version = "0.1.0"
edition = "2021"
publish = false

[dependencies]
gumdrop = "0.8"
serde = { version = "1", features = ["derive"] }
toml = "0.5"

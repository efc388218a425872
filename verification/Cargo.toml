[package]
name = "drone_mesh"
version = "0.1.0"
edition = "2021"
publish = false

[dependencies]
crossbeam-channel = "0.5"
serde = { version = "1.0", features = ["derive"] }
toml = "0.8"

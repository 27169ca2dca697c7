[package]
name = "sc2001"
version = "0.1.0"
edition = "2021"
publish = false

[dependencies]
nanorand = "*"
serde = { version = "*", features = ["derive"] }
serde_json = "*"

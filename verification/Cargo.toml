[package]
name = "fibble"
version = "0.1.0"
edition = "2021"
publish = false

[dependencies]
rand = "0.8"
dirs = "5"
indicatif = "0.17"
serde = { version = "1", features = ["derive"] }
serde_json = "1"

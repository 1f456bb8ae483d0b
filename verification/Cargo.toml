[package]
name = "repo_status"
version = "0.1.0"
edition = "2021"
publish = false

[dependencies]
comfy-table = "7"
indexmap = { version = "2", features = ["serde"] }
serde = { version = "1", features = ["derive"] }
serde_json = "1"
toml = "0.8"

[package]
name = "commit-fix"
version = "0.1.0"
edition = "2021"
publish = false

[dependencies]
rustfix = "0.9"
serde_json = "1"

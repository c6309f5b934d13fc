[package]
name = "sozu_master"
version = "0.1.0"
edition = "2021"
publish = false

[dependencies]
serde = { version = "=1.0.229", features = ["derive"] }
serde_json = "=1.0.151"
nix = { version = "=0.31.3", features = ["fs"] }

[package]
name = "hex_paths"
version = "0.1.0"
edition = "2021"
publish = false

[dependencies]
bevy = { version = "0.16", default-features = false, features = ["std"] }
rand = "0.9"

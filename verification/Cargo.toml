[package]
name = "godot_tileset"
version = "0.1.0"
edition = "2021"
publish = false

[dependencies]
anyhow = "1"
clap = { version = "4", features = ["derive"] }
image = { version = "0.25", default-features = false, features = ["png"] }
itertools = "0.13"
ryu = "1"
serde = { version = "1", features = ["derive"] }
toml = "0.8"

[package]
name = "bhandari_rs"
version = "0.1.0"
edition = "2021"
publish = false

[dependencies]
pathfinding = "4"
anyhow = "1"
clap = { version = "4", features = ["derive"] }

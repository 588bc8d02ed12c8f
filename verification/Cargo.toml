[package]
name = "valence_terrain"
version = "0.1.0"
edition = "2021"
publish = false

[dependencies]
flume = { version = "*", default-features = false }
noise = "*"
serde = { version = "*", features = ["derive"] }
serde_yml = "*"

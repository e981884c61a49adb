[package]
name = "taguchi"
version = "2.0.0"
edition = "2021"
publish = false

[dependencies]
anyhow = "1"
clap = { version = "4", features = ["derive"] }
csv = "1"
nalgebra = "0.33"
serde = { version = "1", features = ["derive"] }
serde_json = "1"
statrs = "0.18"

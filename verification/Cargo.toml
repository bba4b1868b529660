[package]
name = "shape_engine_core"
version = "0.1.0"
edition = "2021"
publish = false

[dependencies]
anyhow = "1"
clap = { version = "4", features = ["derive"] }
crossterm = "0.27"
serde = { version = "1", features = ["derive"] }
toml = "0.8"

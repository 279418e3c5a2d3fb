[package]
name = "shadowcatch"
version = "0.1.0"
edition = "2021"
publish = false

[dependencies]
anyhow = "1"
dirs = "*"
gstreamer = "*"
gtk4 = "*"
serde = { version = "1", features = ["derive"] }
toml = "*"

[package]
name = "scal"
version = "0.1.0"
edition = "2021"
publish = false

[dependencies]
serde = { version = "1", features = ["derive"] }
toml = "*"
bincode = "1"
glam = { version = "*", features = ["serde", "bytemuck"] }
uuid = { version = "1", features = ["v4", "serde"] }
anyhow = "1"
log = "0.4"
bytemuck = { version = "1", features = ["derive"] }
rand = "0.8"
tempfile = "3"

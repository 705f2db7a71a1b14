[package]
name = "pomona"
version = "0.1.0"
edition = "2021"
publish = false

[dependencies]
anyhow = "1"
clap = { version = "4", features = ["derive"] }
regex = "1"
serde = { version = "1", features = ["derive"] }
tempfile = "3"
toml = "*"

[dev-dependencies]
tempfile = "3"

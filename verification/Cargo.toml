[package]
name = "dzip_core"
version = "0.1.0"
edition = "2021"
publish = false

[dependencies]
miniz_oxide = "*"
clap = { version = "4", features = ["derive"] }
env_logger = "*"
log = "0.4"
serde = { version = "1", features = ["derive"] }
toml = "*"

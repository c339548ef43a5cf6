[package]
name = "gchat"
version = "0.1.0"
edition = "2021"
publish = false

[dependencies]
clap = "4"
dirs = "5"
env_logger = "0.11"
glob = "0.3"
log = "0.4"
regex = "1"
reqwest = { version = "0.12", features = ["json"] }
rodio = "0.19"
serde = { version = "1", features = ["derive"] }
tokio = { version = "1", features = ["full"] }
toml = "0.8"
walkdir = "2"

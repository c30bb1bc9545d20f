[package]
name = "dutop"
version = "0.1.0"
edition = "2021"
publish = false

[dependencies]
anyhow = "*"
atty = "*"
clap = { version = "*", features = ["derive"] }
env_logger = "*"
glob = "*"
log = "*"
rayon = "*"
serde = { version = "*", features = ["derive"] }
serde_json = "*"
walkdir = "*"

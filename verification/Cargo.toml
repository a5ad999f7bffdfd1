[package]
name = "violent_cleanup"
version = "0.1.0"
edition = "2021"
publish = false

[dependencies]
anyhow = "1"
clap = { version = "4", features = ["derive"] }
log = "0.4"
nix = { version = "0.29", features = ["fs", "user"] }
pretty_env_logger = "0.5"
walkdir = "2"

[dev-dependencies]
tempfile = "3"

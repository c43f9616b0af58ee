[package]
name = "arena_planner"
version = "0.1.0"
edition = "2021"
publish = false

[dependencies]
anyhow = "1"
bufstream = "0.1"
clap = { version = "4", features = ["derive"] }
env_logger = "0.10"
log = "0.4"
rayon = "1"

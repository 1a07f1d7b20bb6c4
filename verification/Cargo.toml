[package]
name = "simple_ssg"
version = "0.1.0"
edition = "2021"
publish = false

[dependencies]
anyhow = "*"
clap = { version = "*", features = ["derive"] }
env_logger = "*"
jotdown = "*"
log = "*"
pulldown-cmark = "*"
thiserror = "*"
walkdir = "*"

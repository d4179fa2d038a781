[package]
name = "ip_heatmap"
version = "0.1.0"
edition = "2021"
publish = false

[dependencies]
anyhow = "*"
clap = { version = "*", features = ["derive"] }
colorous = "*"
env_logger = "*"
image = { version = "*", default-features = false, features = ["png"] }
log = "*"
palette = "*"

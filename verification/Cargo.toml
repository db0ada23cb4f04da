[package]
name = "travel_time_analysis"
version = "0.1.0"
edition = "2021"
publish = false

[dependencies]
anyhow = "*"
chrono = "*"
config = { version = "*", default-features = false, features = ["toml"] }
csv = "*"
env_logger = "*"
log = "*"
reqwest = { version = "*", default-features = false, features = ["blocking"] }
serde = { version = "*", features = ["derive"] }
thiserror = "*"

[package]
name = "tasklist"
version = "0.1.0"
edition = "2021"
publish = false

[dependencies]
anyhow = "=1.0.104"
chrono = "=0.4.45"
dirs = "=7.0.0"
inquire = { version = "=0.9.4", features = ["date"] }
itertools = "=0.15.0"
serde = { version = "=1.0.229", features = ["derive"] }
serde_yaml = "=0.9.34"

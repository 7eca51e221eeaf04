[package]
name = "mawnolaug"
version = "0.1.0"
edition = "2021"
publish = false

[dependencies]
rand = "0.8"
cron = "0.12"
chrono = "0.4"
chrono-tz = "0.9"
serde = { version = "1", features = ["derive"] }
serde_json = "1"

[package]
name = "oxanus"
version = "0.1.0"
edition = "2021"
publish = false

[dependencies]
chrono = "=0.4.45"
cron = "*"
deadpool-redis = "=0.23.1"
serde = { version = "=1.0.229", features = ["derive"] }
serde_json = "=1.0.154"
tokio = { version = "=1.54.1", features = ["rt", "time", "sync", "macros"] }
gethostname = "=1.1.0"

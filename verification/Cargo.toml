[package]
name = "temp_monitor"
version = "0.1.0"
edition = "2021"
publish = false

[dependencies]
btleplug = "*"
chrono = "*"
futures = "*"
serde = { version = "*", features = ["derive"] }
serde_json = "*"
tokio = { version = "*", features = ["rt-multi-thread", "time"] }

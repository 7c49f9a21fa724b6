[package]
name = "energy_monitor"
version = "0.1.0"
edition = "2021"
publish = false

[dependencies]
sml-rs = "*"
chrono = { version = "*", default-features = false, features = ["std"] }
serde_json = "*"
tokio = { version = "*", features = ["full"] }
reqwest = { version = "*", default-features = false, features = ["json"] }
rumqttc = "*"
tokio-cron-scheduler = "*"

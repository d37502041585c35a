[package]
name = "xray"
version = "0.1.0"
edition = "2021"
publish = false

[dependencies]
bytes = "=0.4.12"
futures = "=0.1.31"
futures-cpupool = "=0.1.8"
git2 = { version = "=0.13.25", default-features = false }
parking_lot = "=0.7.1"
serde = { version = "=1.0.229", features = ["derive"] }
serde_json = "=1.0.154"
tokio-core = "=0.1.18"
tokio-io = "=0.1.13"
uuid = { version = "=0.8.2", features = ["v4"] }

[dev-dependencies]
rand = "0.4"

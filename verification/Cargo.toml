[package]
name = "mkt_pubber"
version = "0.1.0"
edition = "2021"
publish = false

[dependencies]
flate2 = "*"
anyhow = "*"
log = "*"
env_logger = "*"
redis = { version = "*", features = ["tokio-comp", "connection-manager"] }
serde = { version = "*", features = ["derive"] }
serde_yaml = "*"
tokio = { version = "*", features = ["macros", "rt-multi-thread", "signal", "sync", "time"] }
tokio-util = "*"
zmq = "*"

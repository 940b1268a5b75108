[package]
name = "light_control"
version = "0.1.0"
edition = "2021"
publish = false

[dependencies]
anyhow = "*"
clap = { version = "*", features = ["derive"] }
env_logger = "*"
futures = "*"
log = "*"
paho-mqtt = "*"
tokio = { version = "*", features = ["fs", "io-util", "macros", "net", "rt-multi-thread"] }

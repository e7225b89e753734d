[package]
name = "poker_engine"
version = "0.1.0"
edition = "2021"
publish = false

[dependencies]
poker = "*"
rand = "*"
clap = { version = "*", features = ["derive"] }
log = "*"
env_logger = "*"
tokio = { version = "*", features = ["rt-multi-thread", "net", "time", "macros", "io-util"] }
tokio-tungstenite = "*"
futures-util = "*"
url = "*"

[dev-dependencies]
json = "*"

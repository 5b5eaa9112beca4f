[package]
name = "linastore"
version = "0.1.0"
edition = "2021"
publish = false

[dependencies]
anyhow = "*"
blake3 = "*"
bytes = "*"
chrono = "*"
clap = { version = "*", features = ["derive"] }
crc32fast = "*"
flate2 = "*"
hex = "*"
http-body-util = "*"
hyper = { version = "*", features = ["http1", "server"] }
hyper-util = { version = "*", features = ["tokio"] }
lazy_static = "*"
nanoid = "*"
rand = "*"
serde = { version = "*", features = ["derive"] }
sha2 = "*"
tokio = { version = "*", features = ["full"] }
tracing = "*"
tracing-appender = "*"
tracing-subscriber = "*"
uuid = { version = "*", features = ["v4"] }

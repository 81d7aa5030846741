[package]
name = "rtun"
version = "0.1.0"
edition = "2021"
publish = false

[dependencies]
anyhow = "1"
bytes = "1"
clap = { version = "4", features = ["derive"] }
http-body-util = "*"
hyper = { version = "1", features = ["http1", "server"] }
hyper-util = { version = "*", features = ["tokio"] }
iroh = "*"
rand = "*"
serde = { version = "1", features = ["derive"] }
serde_json = "1"
tokio = { version = "1", features = ["full"] }
tokio-stream = "*"
toml = "*"
tracing = "*"
tracing-subscriber = { version = "*", features = ["env-filter"] }

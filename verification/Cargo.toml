[package]
name = "quickurl"
version = "0.1.0"
edition = "2021"
publish = false

[dependencies]
anyhow = "=1.0.104"
base64 = "=0.22.1"
bytes = "=1.12.1"
chrono = "=0.4.45"
clap = { version = "=4.6.7", features = ["derive"] }
crossterm = "=0.28.1"
futures = "=0.3.34"
http-body-util = "=0.1.5"
hyper = { version = "=1.12.0", features = ["client", "server", "http1", "http2"] }
hyper-rustls = { version = "=0.27.10", features = ["http2"] }
hyper-util = { version = "=0.1.21", features = ["client-legacy", "tokio"] }
kanal = "=0.1.1"
num_cpus = "=1.17.0"
rand = "=0.8.8"
ratatui = "=0.29.0"
rustls = "=0.23.45"
serde = { version = "=1.0.229", features = ["derive"] }
serde_json = "=1.0.151"
serde_yaml = "=0.9.34"
tokio = { version = "=1.53.2", features = ["full"] }
tower = { version = "=0.5.3", features = ["util"] }
tracing = "=0.1.44"
tracing-subscriber = "=0.3.23"
uuid = { version = "=1.27.0", features = ["v4"] }

[package]
name = "viroh"
version = "0.1.0"
edition = "2021"
publish = false

[dependencies]
anyhow = "=1.0.104"
axum = { version = "=0.8.9", default-features = false, features = ["http1", "json", "tokio"] }
axum-server = { version = "=0.7.3", features = ["tls-rustls-no-provider"] }
chrono = { version = "=0.4.45", default-features = false, features = ["alloc", "now", "std"] }
clap = { version = "=4.6.7", features = ["derive", "env"] }
crossterm = "=0.28.1"
http-body = "=1.1.0"
iroh = { version = "=1.4.1", default-features = false, features = ["tls-ring"] }
jpeg-encoder = "=0.6.1"
rustls = { version = "=0.23.46", default-features = false, features = ["ring", "std"] }
serde = { version = "=1.0.229", features = ["derive"] }
serde_json = "=1.0.154"
tokio = { version = "=1.54.1", features = ["full"] }
tracing-subscriber = { version = "=0.3.23", default-features = false, features = ["env-filter", "fmt"] }
zune-jpeg = "=0.4.21"

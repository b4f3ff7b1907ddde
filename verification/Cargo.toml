[package]
name = "heliostat"
version = "0.1.0"
edition = "2021"
publish = false

[dependencies]
lru = { version = "=0.18.5", default-features = false }
axum = "*"
axum-server = { version = "*", features = ["tls-rustls-no-provider"] }
clap = { version = "*", features = ["derive"] }
futures = "*"
reqwest = { version = "*", default-features = false, features = ["gzip", "rustls-tls-no-provider"] }
rustls-pemfile = "*"
serde = { version = "*", features = ["derive"] }
serde_yaml = "*"
tokio = { version = "*", features = ["full"] }
tokio-rustls = { version = "*", default-features = false, features = ["ring", "tls12", "logging"] }
tower-http = { version = "*", features = ["fs"] }
tracing = "*"
tracing-subscriber = { version = "*", features = ["env-filter"] }

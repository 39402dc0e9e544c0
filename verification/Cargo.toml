[package]
name = "moth_fans_runtimes"
version = "0.1.0"
edition = "2021"
publish = false

[dependencies]
regex = "1"
serde = { version = "1", features = ["derive"] }
serde_json = "1"
chrono = { version = "0.4", default-features = false, features = ["std", "serde"] }
color-eyre = "0.6"
once_cell = "1"
tokio = { version = "1", features = ["full"] }
toml = "0.5"
tracing = "0.1"
tracing-subscriber = "0.3"
reqwest = { version = "0.11", default-features = false, features = ["json", "rustls-tls"] }
sqlx = { version = "0.6", default-features = false, features = ["mysql", "chrono", "runtime-tokio-rustls"] }
axum = "0.5"
axum-extra = { version = "0.3", features = ["spa"] }

[package]
name = "paper_store"
version = "0.1.0"
edition = "2021"
publish = false

[dependencies]
siphasher = "=1.0.4"
fastrand = "=2.5.0"
chrono = { version = "=0.4.45", features = ["serde"] }
axum = "0.7"
tokio = { version = "1", features = ["full"] }
serde = { version = "1", features = ["derive"] }
serde_repr = "0.1"
toml = "*"
tower-http = { version = "*", features = ["cors", "fs", "trace"] }
tracing = "0.1"
tracing-subscriber = "0.3"
lettre = { version = "*", default-features = false, features = ["serde"] }
thiserror = "*"

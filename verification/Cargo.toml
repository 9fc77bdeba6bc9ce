[package]
name = "raftmetrics"
version = "0.1.0"
edition = "2021"
publish = false

[dependencies]
prost = { version = "*", default-features = false, features = ["std"] }
serde = { version = "1", features = ["derive"] }
serde_json = "1"
tokio = { version = "1", features = ["full"] }
axum = "*"
reqwest = { version = "*", default-features = false, features = ["json"] }
tracing = "*"
tracing-subscriber = { version = "*", features = ["env-filter"] }
thiserror = "*"
chrono = "*"
prometheus = { version = "*", default-features = false }
lazy_static = "1"

[package]
name = "tinyvector"
version = "0.1.0"
edition = "2021"
publish = false

[dependencies]
aide = { version = "0.11", features = ["axum"] }
anyhow = "1"
axum = "0.6"
axum-jsonschema = { version = "0.6", features = ["aide"] }
axum-server = "0.5"
bincode = "1.3"
lazy_static = "1.4"
rayon = "1"
schemars = "0.8"
serde = { version = "1", features = ["derive"] }
serde_json = "1"
thiserror = "1"
tokio = { version = "1", features = ["full"] }
tracing = "0.1"
tracing-subscriber = { version = "0.3", features = ["env-filter"] }

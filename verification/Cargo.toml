[package]
name = "backoffice_api"
version = "0.1.0"
edition = "2021"
publish = false

[dependencies]
tl = "0.7"
serde = { version = "1", features = ["derive"] }
serde_json = "1"
axum = { version = "0.6", features = ["macros", "ws"] }
tokio = { version = "1", features = ["full"] }
tokio-stream = "0.1"
futures = "0.3"
reqwest = { version = "0.11", features = ["cookies", "native-tls"] }
sqlx = { version = "0.7", features = ["runtime-tokio", "postgres"] }
tower-http = { version = "0.4", features = ["add-extension"] }
dotenvy = "0.15"

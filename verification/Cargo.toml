[package]
name = "room_relay"
version = "0.1.0"
edition = "2021"
publish = false

[dependencies]
async-graphql = "=7.2.1"
async-graphql-axum = "=7.2.1"
axum = { version = "=0.8.9", features = ["ws"] }
futures-lite = "=2.6.1"
futures-util = "=0.3.34"
lapin = { version = "=4.12.3", default-features = false, features = ["tokio"] }
libc = "=0.2.191"
quinn = { version = "=0.11.12", default-features = false, features = ["runtime-tokio", "rustls-ring"] }
rcgen = { version = "=0.14.10", default-features = false, features = ["crypto", "ring", "pem"] }
reqwest = { version = "=0.13.5", default-features = false, features = ["json"] }
rustls = { version = "=0.23.46", default-features = false, features = ["ring", "std"] }
serde = { version = "=1.0.229", features = ["derive"] }
serde_json = "=1.0.154"
sqlx = { version = "=0.9.0", default-features = false, features = ["runtime-tokio", "postgres"] }
tokio = { version = "=1.54.1", features = ["full"] }
tokio-tungstenite = "=0.30.0"
tracing = "=0.1.44"
tracing-subscriber = { version = "=0.3.23", features = ["env-filter"] }

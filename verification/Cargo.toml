[package]
name = "red_carpet"
version = "0.1.0"
edition = "2021"
publish = false

[dependencies]
pbkdf2 = { version = "0.12", features = ["simple"] }
rand = "0.8"
uuid = { version = "1", features = ["v4"] }
axum = "0.7"
axum-auth = "0.7"
tokio = { version = "1", features = ["rt-multi-thread", "macros", "net", "sync"] }
tera = "1"
serde = { version = "1", features = ["derive"] }
serde_json = "1"
log = "0.4"
pretty_env_logger = "0.5"

[package]
name = "chatcore"
version = "0.1.0"
edition = "2021"
publish = false

[dependencies]
uuid = { version = "*", features = ["v4"] }
bcrypt = "*"
axum = { version = "*", features = ["ws"] }
tokio = { version = "*", features = ["full"] }
dashmap = "*"
futures-util = "*"
serde = { version = "*", features = ["derive"] }
serde_json = "*"
jsonwebtoken = "*"
chrono = "*"
dotenvy = "*"

[package]
name = "orderbook"
version = "0.1.0"
edition = "2021"
publish = false

[dependencies]
uuid = { version = "*", features = ["v4"] }
tokio = { version = "*", features = ["sync", "rt-multi-thread", "macros"] }
actix-web = "*"
serde = { version = "*", features = ["derive"] }
serde_json = "*"
bcrypt = "*"

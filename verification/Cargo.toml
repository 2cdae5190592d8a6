[package]
name = "quantumchat"
version = "0.1.0"
edition = "2021"
publish = false

[dependencies]
serde = { version = "1", features = ["derive"] }
serde_json = "1"
dirs = "6"
tokio = { version = "1", features = ["rt-multi-thread", "sync", "time", "fs", "macros"] }
sqlx = { version = "0.8.6", default-features = false, features = ["sqlite", "runtime-tokio", "macros", "migrate"] }
iced = { version = "0.14", default-features = false, features = ["tiny-skia", "tokio", "qr_code"] }
sipper = "0.2"

[package]
name = "meerkat"
version = "0.1.0"
edition = "2021"
publish = false

[dependencies]
futures-util = "0.3"
inline_colorization = "*"
serde = { version = "1", features = ["derive"] }
serde_json = "1"
tokio = { version = "1", features = ["macros", "rt", "rt-multi-thread", "net", "sync", "time", "io-std", "io-util"] }
tokio-tungstenite = "0.24"

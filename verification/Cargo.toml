[package]
name = "relay"
version = "0.1.0"
edition = "2021"
publish = false

[dependencies]
tokio = { version = "*", features = ["full"] }
tokio-tungstenite = "*"
futures-util = "*"
uuid = { version = "*", features = ["v4"] }
url = "*"

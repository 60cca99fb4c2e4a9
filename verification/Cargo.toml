[package]
name = "proxyscan"
version = "0.1.0"
edition = "2021"
publish = false

[dependencies]
serde_json = "*"
tokio = { version = "*", features = ["full"] }
futures = "*"
native-tls = "*"
tokio-native-tls = "*"

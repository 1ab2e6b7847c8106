[package]
name = "dgit"
version = "0.1.0"
edition = "2021"
publish = false

[dependencies]
chrono = { version = "0.4", features = ["serde"] }
colored = "2"
native-tls = "0.2"
postgres = "0.19"
postgres-native-tls = "0.5"
serde = "1"
serde_derive = "1"
serde_json = "1"
uuid = { version = "1", features = ["v4"] }

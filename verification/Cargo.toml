[package]
name = "portal_core"
version = "0.1.0"
edition = "2021"
publish = false

[dependencies]
sha256 = "*"
tokio = { version = "*", features = ["full"] }
tokio-util = { version = "*", features = ["codec"] }
bytes = "*"
futures = "*"

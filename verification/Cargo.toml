[package]
name = "factorio_browser"
version = "0.1.0"
edition = "2021"
publish = false

[dependencies]
semver = "1"
chrono = "0.4"
serde = { version = "1", features = ["derive"] }
serde_json = "1"
urlencoding = "2"
dotenvy = "0.15"
reqwest = { version = "0.12", default-features = false, features = ["blocking", "json", "rustls-tls"] }

[package]
name = "talon-sandbox"
version = "0.1.0"
edition = "2021"
publish = false

[dependencies]
serde = { version = "1", features = ["derive"] }
serde_json = "1"
reqwest = { version = "0.12", default-features = false, features = ["json", "rustls-tls"] }
tokio = { version = "1", features = ["time", "net", "rt", "macros"] }
tokio-tungstenite = "0.23"
futures-util = { version = "0.3", features = ["sink"] }
bytes = "1"
thiserror = "1"

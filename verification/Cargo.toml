[package]
name = "aibuddy"
version = "0.1.0"
edition = "2021"
publish = false

[dependencies]
chrono = "0.4"
serde = { version = "1", features = ["derive"] }
rusqlite = { version = "*", features = ["bundled"] }
reqwest = { version = "0.12", default-features = false, features = ["stream", "rustls-tls"] }
tokio = { version = "1", features = ["fs", "io-util", "rt"] }
futures-util = "0.3"
core-foundation = "*"
llama-cpp-2 = "*"
sherpa-rs = "*"

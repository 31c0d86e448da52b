[package]
name = "lettuce_core"
version = "0.1.0"
edition = "2021"
publish = false

[dependencies]
regex = "1"
serde = { version = "1", features = ["derive"] }
serde_json = "1"
rusqlite = { version = "*", features = ["bundled"] }
tokio = { version = "1", features = ["fs", "io-util", "sync", "time", "rt", "macros"] }
reqwest = { version = "0.12", default-features = false, features = ["json", "stream", "rustls-tls"] }
futures-util = "0.3"
lazy_static = "1"
llama-cpp-2 = "*"
llama-cpp-sys-2 = "*"

[package]
name = "tcp_to_http"
version = "0.1.0"
edition = "2021"
publish = false

[dependencies]
anyhow = "1"
hex = "0.4"
sha2 = "0.10"
tokio = { version = "1", features = ["rt-multi-thread", "macros", "net", "io-util", "signal"] }
reqwest = { version = "0.12", default-features = false, features = ["rustls-tls"] }

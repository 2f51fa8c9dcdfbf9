[package]
name = "private_forest"
version = "0.1.0"
edition = "2021"
publish = false

[dependencies]
sha2 = "0.10"
chacha20poly1305 = "0.10"
rand = "0.8"
tokio = { version = "1", features = ["rt-multi-thread", "macros"] }
futures = "0.3"
chrono = "0.4"
anyhow = "1"

[package]
name = "resp_kv"
version = "0.1.0"
edition = "2021"
publish = false

[dependencies]
anyhow = "1"
btoi = "*"
tokio = { version = "1", features = ["rt-multi-thread", "macros", "net", "io-util", "sync"] }

[dev-dependencies]
nom = "8"

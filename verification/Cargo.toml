[package]
name = "price_store"
version = "0.1.0"
edition = "2021"
publish = false

[dependencies]
dashmap = "=6.2.1"
chrono = "=0.4.45"
tokio = { version = "=1.53.2", features = ["net", "io-util", "rt-multi-thread", "sync", "time", "macros"] }
local-ip-address = "=0.6.13"

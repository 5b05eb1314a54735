[package]
name = "tskv"
version = "0.1.0"
edition = "2021"
publish = false

[dependencies]
lazy_static = "1"
parking_lot = "0.12"
tokio = { version = "1", default-features = false, features = ["sync"] }

[dev-dependencies]
rand = "0.8"

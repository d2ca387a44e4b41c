[package]
name = "tiplot"
version = "0.1.0"
edition = "2021"
publish = false

[dependencies]
arrow = { version = "*", default-features = false, features = ["ipc"] }
serde_json = "*"
natord = "*"
tokio = { version = "*", features = ["rt-multi-thread", "net", "io-util", "macros"] }
crossbeam-channel = "*"

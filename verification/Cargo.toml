[package]
name = "soe_protocol"
version = "0.1.0"
edition = "2021"
publish = false

[dependencies]
bytes = "1"
miniz_oxide = "0.8"
tokio = { version = "1", features = ["net", "rt", "rt-multi-thread", "sync", "time", "macros"] }

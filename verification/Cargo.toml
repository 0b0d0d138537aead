[package]
name = "puan"
version = "0.1.0"
edition = "2021"
publish = false

[dependencies]
http = "0.2"
prost = "0.12"
prost-types = "0.12"
tokio = { version = "1", features = ["macros", "rt-multi-thread", "sync"] }
tokio-stream = "0.1"
tonic = "0.10"
tonic-reflection = "0.10"

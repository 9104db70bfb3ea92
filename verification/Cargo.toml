[package]
name = "nockchain"
version = "0.1.0"
edition = "2021"
publish = false

[dependencies]
rayon = "1"
tokio = { version = "1", features = ["sync", "time", "rt-multi-thread", "macros"] }
futures = "0.3"
rand = "0.8"
tempfile = "3"
tracing = "0.1"

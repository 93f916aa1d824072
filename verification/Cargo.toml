[package]
name = "hummock_state"
version = "0.1.0"
edition = "2021"
publish = false

[dependencies]
async-trait = "0.1"
bytes = "1"
futures = "0.3"
itertools = "0.10"
parking_lot = "0.12"
prost = "0.9"
smallvec = "1"
tokio = { version = "1", features = ["rt", "sync"] }

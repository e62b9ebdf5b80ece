[package]
name = "cpq"
version = "0.1.0"
edition = "2021"
publish = false

[dependencies]
crossbeam = "0.8"
crossbeam-epoch = "0.9"
dashmap = { version = "6", features = ["raw-api"] }
hashbrown = "0.14"
parking_lot = "0.12"
scopeguard = "1"

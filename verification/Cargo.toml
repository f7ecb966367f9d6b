[package]
name = "acorn"
version = "0.1.0"
edition = "2021"
publish = false

[dependencies]
futures = { version = "0.3", features = ["thread-pool"] }
log = "0.4"
parking_lot = "0.12"
thiserror = "1"

[package]
name = "cloyster"
version = "0.1.0"
edition = "2021"
publish = false

[dependencies]
binary-heap-plus = "*"
blake3 = { version = "1", features = ["pure"] }
crossbeam-channel = "0.5"
either = "1"
log = "0.4"
once_cell = "1"
parking_lot = "0.12"
thiserror = "1"

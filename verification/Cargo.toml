[package]
name = "rust_bl"
version = "0.1.0"
edition = "2021"
publish = false

[dependencies]
uefi = { version = "0.39.0", features = ["alloc", "logger"] }
log = "0.4"

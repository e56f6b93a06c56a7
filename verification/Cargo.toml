[package]
name = "rinha_fraud"
version = "0.1.0"
edition = "2021"
publish = false

[dependencies]
libc = "=0.2.191"
memmap2 = "=0.9.12"
serde = { version = "=1.0.229", features = ["derive"] }
serde_json = "=1.0.154"
smallvec = { version = "=1.16.4", features = ["serde"] }

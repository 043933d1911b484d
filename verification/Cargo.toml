[package]
name = "async_concurrent_primitives"
version = "0.1.0"
edition = "2021"
publish = false

[dev-dependencies]
loom = { version = "0.7", features = ["futures"] }

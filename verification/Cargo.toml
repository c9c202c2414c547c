[package]
name = "async-io"
version = "0.1.0"
edition = "2021"
publish = false

[dependencies]
async-lock = "3"
cfg-if = "1"
concurrent-queue = "2"
futures-lite = { version = "2", default-features = false, features = ["std"] }
parking = "2"
polling = "3"
slab = "0.4"
tracing = { version = "0.1", default-features = false }

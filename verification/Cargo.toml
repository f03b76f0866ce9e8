[package]
name = "ttl_cache"
version = "0.1.0"
edition = "2021"
publish = false

[dependencies]
hyper = { version = "0.14", features = ["server", "http1", "tcp"] }
async-trait = "0.1"
log = "0.4"

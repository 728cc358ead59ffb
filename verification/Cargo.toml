[package]
name = "kulupu-pow"
version = "0.1.0"
edition = "2021"
publish = false

[dependencies]
lru-cache = "0.1"
log = "0.4"
lazy_static = "1"
parity-scale-codec = { version = "3", features = ["derive"] }
sp-core = { version = "*", default-features = false }

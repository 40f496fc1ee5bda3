[package]
name = "mini_map"
version = "0.1.0"
edition = "2021"
publish = false

[dependencies]
hashbrown = { version = "=0.15.5", default-features = false }
linked-hash-map = "=0.5.6"

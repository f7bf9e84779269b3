[package]
name = "batches"
version = "0.1.0"
edition = "2021"
publish = false

[dependencies]
hashbrown = "=0.15.5"
rustc-hash = "=2.1.3"

[dev-dependencies]
rand = "=0.9.5"

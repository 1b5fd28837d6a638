[package]
name = "worldgen"
version = "0.1.0"
edition = "2021"
publish = false

[dependencies]
lru = { version = "=0.18.5", default-features = false }
noise = "=0.9.0"
flume = "=0.12.0"
rayon = "=1.12.0"
rand = "=0.10.3"

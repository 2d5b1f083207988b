[package]
name = "kvs"
version = "0.1.0"
edition = "2021"
publish = false

[dependencies]
bincode = "=1.3.3"
serde = { version = "=1.0.229", features = ["derive"] }
log = "=0.4.34"
sled = "=0.34.7"
rand = "0.7"

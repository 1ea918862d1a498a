[package]
name = "kvs"
version = "0.1.0"
edition = "2021"
publish = false

[dependencies]
crc32fast = "1"
failure = "0.1"
failure_derive = "0.1"
log = "0.4"
ron = "*"
serde = { version = "1", features = ["derive"] }
sled = "0.34"
structopt = "0.3"

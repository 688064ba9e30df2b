[package]
name = "kvs"
version = "0.1.0"
edition = "2021"
publish = false

[dependencies]
crossbeam = "0.8"
crossbeam-skiplist = "0.1"
env_logger = "*"
log = "0.4"
serde = { version = "1", features = ["derive"] }
serde_json = "1"
sled = "0.34"
structopt = "0.3"

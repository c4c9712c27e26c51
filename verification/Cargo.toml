[package]
name = "taskgraph"
version = "0.1.0"
edition = "2021"
publish = false

[dependencies]
crossbeam-deque = "=0.8.8"
crossbeam-utils = "=0.8.23"
serde_json = "=1.0.151"
ureq = { version = "=2.12.1", features = ["json"] }

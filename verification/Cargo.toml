[package]
name = "nodenet"
version = "0.1.0"
edition = "2021"
publish = false

[dependencies]
slotmap = "1"
petgraph = "0.6"
rlua = "0.19"
serde = { version = "1", features = ["derive"] }
serde_json = "1"
zmq = "*"
log = "0.4"
env_logger = "*"

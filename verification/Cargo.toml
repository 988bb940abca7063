[package]
name = "message_router"
version = "0.1.0"
edition = "2021"
publish = false

[dependencies]
protobuf = "1"
rand = "0.3"
zmq = "0.10"
log = "0.4"
lazy_static = "1"

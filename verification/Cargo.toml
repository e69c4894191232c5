[package]
name = "simex"
version = "0.1.0"
edition = "2021"
publish = false

[dependencies]
json = "*"
rand = "*"
zmq = "*"
log = "*"
simplelog = "*"

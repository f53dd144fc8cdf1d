[package]
name = "embly_wrapper"
version = "0.1.0"
edition = "2021"
publish = false

[dependencies]
protobuf = "2"
rand = "0.7"
lucet-runtime = "*"
lucet-runtime-internals = "*"
lucet-wasi = "*"

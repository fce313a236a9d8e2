[package]
name = "zenoh_keyexpr"
version = "0.1.0"
edition = "2021"
publish = false

[dependencies]
flume = "*"
tracing = "*"

[package]
name = "message_stream"
version = "0.1.0"
edition = "2021"
publish = false

[dependencies]
futures = "0.3"
monoio = "*"
pin-project = "1"

[package]
name = "suite_b"
version = "0.1.0"
edition = "2021"
publish = false

[dependencies]
untrusted = "0.6.2"
rmp-serde = "*"

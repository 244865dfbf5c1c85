[package]
name = "mapping_serde"
version = "0.1.0"
edition = "2021"
publish = false

[dependencies]
memchr = "2"
fast-unescape = "*"
smallvec = "1"

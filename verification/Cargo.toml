[package]
name = "serde_json_bytes"
version = "0.1.0"
edition = "2021"
publish = false

[dependencies]
bytes = "1"
jsonpath-rust = "0.3"
regex = "1"
serde = "1"
serde_json = "1"

[package]
name = "jcs"
version = "0.1.0"
edition = "2021"
publish = false

[dependencies]
ryu-js = "=1.0.3"
serde = "=1.0.229"
serde_json = "=1.0.154"

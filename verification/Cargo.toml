[package]
name = "cokacdir"
version = "0.1.0"
edition = "2021"
publish = false

[dependencies]
sha2 = "0.10"
hex = "0.4"
serde_json = "1"
rand = "0.8"
dirs = "5"
chrono = "0.4"

[package]
name = "jsbuiltins"
version = "0.1.0"
edition = "2021"
publish = false

[dependencies]
regress = { version = "=0.12.0", features = ["utf16"] }
num-bigint = "=0.5.1"
unicode-normalization = "=0.1.26"
serde_json = "=1.0.154"
indexmap = "=2.14.2"

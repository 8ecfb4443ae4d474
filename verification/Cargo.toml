[package]
name = "serde_ordered"
version = "0.1.0"
edition = "2021"
publish = false

[dependencies]
proc-macro2 = "1"
quote = "1"
serde = "1"
serde-value = "0.7"
syn = "2"

[dev-dependencies]
rmp-serde = "1"
serde_json = "1"

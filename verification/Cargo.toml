[package]
name = "stateful_filter"
version = "0.1.0"
edition = "2021"
publish = false

[dependencies]
nu-plugin = { version = "=0.113.1", default-features = false }
nu-protocol = { version = "=0.113.1", default-features = false }

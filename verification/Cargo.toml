[package]
name = "uri_syntax"
version = "0.1.0"
edition = "2021"
publish = false

[dependencies]
common_failures = "0.1.1"
failure = "0.1.8"

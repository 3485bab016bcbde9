[package]
name = "aatree"
version = "0.1.0"
edition = "2021"
publish = false

[dependencies]
openapi_type = "*"
serde = "1"

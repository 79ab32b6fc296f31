[package]
name = "clp_s"
version = "0.1.0"
edition = "2021"
publish = false

[dependencies]
ahash = "0.8"
itoa = "1"
ryu = "1"

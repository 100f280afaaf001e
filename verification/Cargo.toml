[package]
name = "jiffy"
version = "0.1.0"
edition = "2021"
publish = false

[dependencies]
lock_api = "0.4"

[package]
name = "sandwinch_rs"
version = "0.1.0"
edition = "2021"
publish = false

[dependencies]
rand = "0.8"
bounded-vec-deque = "0.1"

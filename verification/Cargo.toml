[package]
name = "ndmaze"
version = "0.1.0"
edition = "2021"
publish = false

[dependencies]
bevy = { version = "=0.7.0", default-features = false, features = ["render"] }
rand = "=0.8.8"
tracing-attributes = "=0.1.23"

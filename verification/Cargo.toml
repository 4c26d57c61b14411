[package]
name = "super8"
version = "0.1.0"
edition = "2021"
publish = false

[dependencies]
rand = "0.8"
minifb = "0.24"
rodio = { version = "0.17", default-features = false }

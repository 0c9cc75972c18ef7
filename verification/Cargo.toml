[package]
name = "agb"
version = "0.1.0"
edition = "2021"
publish = false

[dependencies]
rustc-hash = "*"
embedded-hal = "0.2"
nb = "1"

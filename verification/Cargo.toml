[package]
name = "linkerloader"
version = "0.1.0"
edition = "2021"
publish = false

[dependencies]
colored = "2"
either = "1"
rand = "0.8"

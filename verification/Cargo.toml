[package]
name = "rgit"
version = "0.1.0"
edition = "2021"
publish = false

[dependencies]
rust-crypto = "=0.2.36"
clap = { version = "=4.6.7", features = ["derive"] }
tempfile = "=3.27.0"

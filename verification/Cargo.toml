[package]
name = "dbsp"
version = "0.1.0"
edition = "2021"
publish = false

[dependencies]
arc-swap = "1"
crossbeam-utils = "0.8"
textwrap = { version = "0.16", default-features = false }
time = { version = "0.3", features = ["formatting"] }

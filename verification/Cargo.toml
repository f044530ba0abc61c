[package]
name = "rsds"
version = "0.1.0"
edition = "2021"
publish = false

[dependencies]
crossbeam = "0.8"
dashmap = "5"
rand = "0.8"

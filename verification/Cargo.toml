[package]
name = "wipple_compiler"
version = "0.1.0"
edition = "2021"
publish = false

[dependencies]
ena = "0.14.4"
petgraph = "0.8.3"
itertools = "0.14.0"
line-col = "*"
serde = { version = "1.0.229", features = ["derive"] }

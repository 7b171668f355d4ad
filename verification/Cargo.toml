[package]
name = "merge_baysor"
version = "0.1.0"
edition = "2021"
publish = false

[dependencies]
clap = { version = "*", features = ["derive"] }
polars = { version = "*", features = ["csv"] }

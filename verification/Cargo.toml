[package]
name = "rust_cssr"
version = "0.1.0"
edition = "2021"
publish = false

[dependencies]
statrs = "*"
clap = { version = "4", features = ["derive"] }

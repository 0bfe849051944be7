[package]
name = "bezier"
version = "0.1.0"
edition = "2021"
publish = false

[dependencies]
charming = "*"
clap = { version = "4", features = ["derive"] }

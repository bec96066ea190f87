[package]
name = "seekindex"
version = "0.1.0"
edition = "2021"
publish = false

[dependencies]
stable-hash = "*"
bgzip = "*"
clap = { version = "*", features = ["derive"] }

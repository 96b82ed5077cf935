[package]
name = "slice"
version = "0.1.0"
edition = "2021"
publish = false

[dependencies]
bytesize = "1"
clap = { version = "4", features = ["derive"] }

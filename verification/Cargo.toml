[package]
name = "regexify"
version = "0.1.0"
edition = "2021"
publish = false

[dependencies]
clap = { version = "=4.6.7", features = ["derive"] }
rand = "=0.9.5"
regex = "=1.13.1"

[package]
name = "markov"
version = "0.1.0"
edition = "2021"
publish = false

[dependencies]
sprs = "*"
rand = "0.9"
clap = { version = "4", features = ["derive"] }
utf8-chars = "*"

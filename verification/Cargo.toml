[package]
name = "bell103"
version = "0.1.0"
edition = "2021"
publish = false

[dependencies]
hound = "*"
structopt = "*"

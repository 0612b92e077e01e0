[package]
name = "advent"
version = "0.1.0"
edition = "2021"
publish = false

[dependencies]
itertools = "*"
image = { version = "*", default-features = false, features = ["png"] }
structopt = "*"

[package]
name = "grafpe"
version = "0.1.0"
edition = "2021"
publish = false

[dependencies]
clap = { version = "=4.6.7", features = ["derive"] }
hex = "=0.4.3"
itertools = "=0.15.0"
openssl = "=0.10.81"
rand = "=0.10.3"
regex = "=1.13.1"

[package]
name = "couladj"
version = "0.1.0"
edition = "2021"
publish = false

[dependencies]
anyhow = "*"
image = "*"
rayon = "*"
structopt = "*"

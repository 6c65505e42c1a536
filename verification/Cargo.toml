[package]
name = "perq"
version = "0.1.0"
edition = "2021"
publish = false

[dependencies]
num = "0.4"
rayon = "1"
rug = "1"
rustc-hash = "1"

[dev-dependencies]
rand = "0.8"

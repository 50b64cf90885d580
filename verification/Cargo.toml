[package]
name = "bf_interp"
version = "0.1.0"
edition = "2021"
publish = false

[dependencies]
rustop = "*"

[dev-dependencies]
string-builder = "*"

[package]
name = "thunfisch"
version = "0.1.0"
edition = "2021"
publish = false

[dependencies]
arrayvec = "0.7"
rayon = "1"
colored = "*"
num-format = "0.4"

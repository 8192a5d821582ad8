[package]
name = "rust_pyaq"
version = "0.1.0"
edition = "2021"
publish = false

[dependencies]
rand = "0.4"
itertools = "0.7"
getopts = "0.2"
sgf = "*"
tensorflow = "*"

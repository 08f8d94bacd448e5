[package]
name = "vigenere"
version = "0.1.0"
edition = "2021"

[dependencies]
rustc-serialize = "0.3"
getopts = "0.2"

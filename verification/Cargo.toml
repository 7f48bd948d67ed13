[package]
name = "wordles"
version = "0.1.0"
edition = "2021"
publish = false

[dependencies]
getopts = "0.2"
lmdb = "0.8"

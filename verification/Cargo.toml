[package]
name = "ft"
version = "0.1.0"
edition = "2021"
publish = false

[dependencies]
rayon = "*"
clap = "*"
byte-unit = "*"
crossbeam-channel = "*"
crossbeam-utils = "*"

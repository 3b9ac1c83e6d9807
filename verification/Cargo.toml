[package]
name = "workassisting"
version = "0.1.0"
edition = "2021"
publish = false

[dependencies]
rayon = "1"
rand = "0.9"
num-format = "0.4"
crossbeam = "0.8"
libc = "0.2"
affinity = "0.1"

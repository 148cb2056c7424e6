[package]
name = "p2d"
version = "0.1.0"
edition = "2021"
publish = false

[dependencies]
bimap = "0.6"
num-bigint = "0.4"
num-traits = "0.2"
clap = "4"
libc = "0.2"

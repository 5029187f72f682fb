[package]
name = "catflap"
version = "0.1.0"
edition = "2021"
publish = false

[dependencies]
clap = "2.34"
libc = "0.2"
nix = "0.23"

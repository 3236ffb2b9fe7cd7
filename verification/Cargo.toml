[package]
name = "pipe_channel"
version = "1.3.0"
edition = "2021"
publish = false

[dependencies]
libc = "0.2"
nix = "0.9"

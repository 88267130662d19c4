[package]
name = "rotten_sh"
version = "0.1.0"
edition = "2021"
publish = false

[dependencies]
libc = "=0.2.191"
nix = { version = "=0.29.0", features = ["fs", "process", "signal", "term"] }

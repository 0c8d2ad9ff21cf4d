[package]
name = "burst_pool"
version = "0.5.1"
edition = "2021"
publish = false

[dependencies]
byteorder = "1"
nix = { version = "*", features = ["event", "poll"] }

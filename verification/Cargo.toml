[package]
name = "wheatley"
version = "0.1.0"
edition = "2021"
publish = false

[dependencies]
wyhash = "*"
flate2 = "*"
brotli = "*"
zstd = "*"
snap = "*"

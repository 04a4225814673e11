[package]
name = "patchy"
version = "0.1.0"
edition = "2021"
publish = false

[dependencies]
anyhow = "*"
blake3 = "*"
clap = "*"
constant_time_eq = "*"
memmap = "*"
zstd = "*"

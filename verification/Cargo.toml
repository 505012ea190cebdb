[package]
name = "bindle_file"
version = "0.1.0"
edition = "2021"
publish = false

[dependencies]
crc32fast = "*"
zstd = "*"
fs2 = "*"
memmap2 = "*"
clap = "*"

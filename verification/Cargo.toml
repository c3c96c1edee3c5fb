[package]
name = "apk_fixer"
version = "0.1.0"
edition = "2021"
publish = false

[dependencies]
byteorder = "1"
crc32fast = "1"
flate2 = "1"
anyhow = "1"
clap = { version = "4", features = ["derive"] }
colored = "2"

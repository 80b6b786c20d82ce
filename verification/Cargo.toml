[package]
name = "swg"
version = "0.1.0"
edition = "2021"
publish = false

[dependencies]
flate2 = "1"
crc = "3"
md-5 = "0.10"
similar = "2"
clap = { version = "4", features = ["derive"] }
walkdir = "2"
owo-colors = "4"

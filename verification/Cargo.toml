[package]
name = "cast"
version = "0.1.0"
edition = "2021"
publish = false

[dependencies]
xz2 = "*"
flate2 = "*"
crc32fast = "*"
memchr = "*"
num_cpus = "*"
tempfile = "*"

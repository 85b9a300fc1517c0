[package]
name = "unweave"
version = "1.0.0"
edition = "2021"
publish = false

[dependencies]
ahash = "0.8"
anyhow = "1"
getopts = "0.2"
memchr = "2"
memmap = "0.7"
regex = "1"
unicode-segmentation = "1"

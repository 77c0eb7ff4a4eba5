[package]
name = "easy_lsm"
version = "0.1.0"
edition = "2021"
publish = false

[dependencies]
arc-swap = "1"
bincode = "1.3"
crc32fast = "1"
crossbeam-skiplist = "0.1"
rayon = "1"
siphasher = "1"
thiserror = "1"

[package]
name = "rgdb"
version = "0.7.0"
edition = "2021"
publish = false

[dependencies]
byteorder = "1"
hashbrown = "*"
thiserror = "1"
memmap2 = "*"
rayon = "1"
arc-swap = "1"
lru = "*"
ndarray = "*"
lazy_static = "1"

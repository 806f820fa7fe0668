[package]
name = "tonks"
version = "0.1.0"
edition = "2021"
publish = false

[dependencies]
bit-set = "*"
bit-vec = "*"
hashbrown = "*"
crossbeam = "*"
rayon = "*"
shred = "*"

[package]
name = "mpee_planet"
version = "0.1.0"
edition = "2021"
publish = false

[dependencies]
blake3 = "1"
flate2 = "1"
libc = "0.2"
libdeflater = "1"
memmap2 = "0.9"
rayon = "1"

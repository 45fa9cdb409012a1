[package]
name = "forthdb_world"
version = "0.1.0"
edition = "2021"
publish = false

[dependencies]
io-uring = "0.7"
libc = "0.2"
memmap2 = "0.9"

[package]
name = "libfs"
version = "0.1.0"
edition = "2021"
publish = false

[dependencies]
fuser = { version = "0.13", default-features = false }
libc = "0.2"

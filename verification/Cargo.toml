[package]
name = "libmemlog"
version = "0.3.0"
edition = "2021"
publish = false

[dependencies]
libc = "0.2"

[dev-dependencies]
hex = "0.4"

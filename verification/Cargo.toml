[package]
name = "sysinfo"
version = "0.1.0"
edition = "2021"
publish = false

[dependencies]
libc = "=0.2.191"
procfs = { version = "0.17", default-features = false }

[package]
name = "dirls"
version = "0.1.0"
edition = "2021"
publish = false

[dependencies]
colored = "*"
libc = "*"
terminal_size = "*"

[package]
name = "nvim_cat"
version = "0.1.0"
edition = "2021"
publish = false

[dependencies]
rmp = "*"
rmpv = "*"
clap = "*"
libc = "*"

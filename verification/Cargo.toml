[package]
name = "fbuilder"
version = "0.1.0"
edition = "2021"
publish = false

[dependencies]
fnmatch-regex = "*"
libc = "*"
lazy_static = "*"

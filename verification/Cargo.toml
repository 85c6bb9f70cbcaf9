[package]
name = "fasthex"
version = "0.3.0"
edition = "2021"
publish = false

[dependencies]
clihelp = "*"
libc = "0.2"
memmap2 = "0.9"
rayon = "1"

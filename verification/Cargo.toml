[package]
name = "ruplicity_fuse"
version = "0.1.0"
edition = "2021"
publish = false

[dependencies]
time = "0.1"
libc = "0.2"
log = "*"
fuse = "0.3"
ruplicity = "*"
chan-signal = "*"

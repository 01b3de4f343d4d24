[package]
name = "outoforderfs"
version = "0.1.0"
edition = "2021"
publish = false

[dependencies]
rand = "*"
fuse = "0.3"
time = "0.1"
chan-signal = "0.3"

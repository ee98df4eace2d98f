[package]
name = "paktool"
version = "0.1.0"
edition = "2021"
publish = false

[dependencies]
shlex = "=1.3.0"
text_io = "=0.1.13"

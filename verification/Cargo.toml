[package]
name = "prio"
version = "0.1.0"
edition = "2021"
publish = false

[dependencies]
aes = "0.8"
cmac = "0.7"
ctr = "0.9"
getrandom = "0.2"

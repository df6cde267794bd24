[package]
name = "battlemap"
version = "0.1.0"
edition = "2021"
publish = false

[dependencies]
caith = "=1.0.1"

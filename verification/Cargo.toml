[package]
name = "stract_core"
version = "0.1.0"
edition = "2021"
publish = false

[dependencies]
lru = "=0.16.4"
rand = "=0.8.8"
url = "=2.5.8"

[package]
name = "lp-littlefs"
version = "0.1.0"
edition = "2021"
publish = false

[dependencies]
littlefs2-sys = "*"

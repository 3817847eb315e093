[package]
name = "ini"
version = "0.1.0"
edition = "2021"
publish = false

[dev-dependencies]
configparser = "=3.3.0"

[package]
name = "byte_buster"
version = "0.1.0"
edition = "2021"
publish = false

[dependencies]
hex = "0.4"
crossbeam-channel = "0.5"
log = "0.4"
env_logger = "*"

[package]
name = "rusty_props"
version = "0.1.0"
edition = "2021"
publish = false

[dependencies]
bincode = "1"
rand = "0.8"
log = "0.4"
env_logger = "0.10"
mnist = "0.5"

[package]
name = "sat_nexus"
version = "0.1.0"
edition = "2021"
publish = false

[dependencies]
vec_map = "0.8"
clap = { version = "4", features = ["derive"] }
flate2 = "1"
num-format = "0.4"
env_logger = "*"
log = "0.4"
itertools = "*"
ordered-float = "*"
crossbeam-channel = "0.5"

[package]
name = "michat"
version = "0.1.0"
edition = "2021"
publish = false

[dependencies]
mio = "0.6"
clap = "2"
log = "0.4"
env_logger = "0.9"
failure = "0.1"

[package]
name = "askalono"
version = "0.1.0"
edition = "2021"
publish = false

[dependencies]
difference = "2.0"
env_logger = "*"
failure = "0.1"
ignore = "0.4"
log = "0.4"
rayon = "1"
structopt = "0.3"

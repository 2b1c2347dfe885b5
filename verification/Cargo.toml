[package]
name = "particle_life"
version = "0.1.0"
edition = "2021"
publish = false

[dependencies]
randomize = "*"
getrandom = "*"
byteorder = "*"
log = "*"
env_logger = "*"
error-iter = "*"

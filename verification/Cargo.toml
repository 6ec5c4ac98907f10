[package]
name = "rustfs"
version = "0.1.0"
edition = "2021"
publish = false

[dependencies]
time = "0.1"
rand = "0.8"
nix = "0.26"
toml = "0.5"
log = "0.4"
env_logger = "0.9"

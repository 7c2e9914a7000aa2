[package]
name = "dirmon"
version = "0.1.0"
edition = "2021"
publish = false

[dependencies]
anyhow = "1"
clap = { version = "4", features = ["derive"] }
configparser = "3"
dirs = "*"
env_logger = "*"
fs_extra = "1"
log = "0.4"
notify = "*"

[package]
name = "lease_viewer"
version = "0.1.0"
edition = "2021"
publish = false

[dependencies]
chrono = "0.4"
rouille = "3"
log = "0.4"
env_logger = "*"

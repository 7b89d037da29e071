[package]
name = "atlas_retheme"
version = "0.1.0"
edition = "2021"
publish = false

[dependencies]
image = { version = "0.24", default-features = false, features = ["png"] }
log = "0.4"
env_logger = "*"
rayon = "1"

[package]
name = "imgcrop"
version = "0.1.0"
edition = "2021"
publish = false

[dependencies]
image = { version = "0.24", default-features = false, features = ["png", "jpeg"] }
imagesize = "*"
clap = { version = "3.2", features = ["derive"] }
csv = "1"
env_logger = "0.9"
indicatif = "0.17"
log = "0.4"
num_cpus = "1"
serde = { version = "1", features = ["derive"] }
serde_with = "3"
serde-xml-rs = "0.5"
walkdir = "2"

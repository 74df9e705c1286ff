[package]
name = "trtools"
version = "0.1.0"
edition = "2021"
publish = false

[dependencies]
fxhash = "*"
bio = "*"
clap = { version = "*", features = ["cargo"] }
env_logger = "*"
log = "*"
rayon = "*"

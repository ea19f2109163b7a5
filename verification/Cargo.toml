[package]
name = "brtt"
version = "0.1.0"
edition = "2021"
publish = false

[dependencies]
anyhow = "1"
chrono = "0.4"
clap = { version = "4", features = ["derive"] }
crossterm = "*"
defmt-decoder = "1"
defmt-parser = "1"
env_logger = "0.11"
log = "0.4"
memchr = "2"
probe-rs = "*"
vt100 = "0.16"

[package]
name = "axon"
version = "0.1.0"
edition = "2021"
publish = false

[dependencies]
byteorder = "1"
serde_json = "1"
half = "2"
clap = { version = "4", features = ["derive"] }
env_logger = "0.11"
log = "0.4"
memmap2 = "0.9"

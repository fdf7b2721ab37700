[package]
name = "synroute"
version = "0.1.0"
edition = "2021"
publish = false

[dependencies]
clap = { version = "4", features = ["derive"] }
log = "0.4"
simple_logger = "4"

[dev-dependencies]
bincode = "1"

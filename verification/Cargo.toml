[package]
name = "data"
version = "0.1.0"
edition = "2021"
publish = false

[dependencies]
byteorder = "1"
log = "0.4"
env_logger = "0.10"
rand = "0.8"
serde = { version = "1", features = ["derive"] }
uuid = { version = "1", features = ["v4", "serde"] }
async-std = { version = "1", features = ["attributes"] }
tide = "0.16"

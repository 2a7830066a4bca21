[package]
name = "amphis"
version = "0.1.0"
edition = "2021"
publish = false

[dependencies]
crc = "1"
bloomfilter = { version = "1", features = ["serde"] }
bincode = "1"
serde = { version = "1", features = ["derive"] }
memmap = "0.7"
crossbeam-channel = "0.5"
log = "0.4"
thiserror = "1"
env_logger = "0.9"
threadpool = "1"

[package]
name = "database"
version = "0.1.0"
edition = "2021"
publish = false

[dependencies]
bincode = "=1.3.3"
crc32fast = "=1.5.3"
env_logger = "=0.11.11"
log = "=0.4.34"
rustc_apfloat = "=0.2.3"
rustyline = { version = "14", default-features = false }
serde = { version = "=1.0.229", features = ["derive"] }
thiserror = "=1.0.69"
threadpool = "=1.8.1"

[package]
name = "file_logger"
version = "0.1.0"
edition = "2021"
publish = false

[dependencies]
chrono = "0.4"
log = { version = "0.4", features = ["std"] }

[package]
name = "rocket_file_cache"
version = "0.1.0"
edition = "2021"
publish = false

[dependencies]
log = "0.4"
rocket = { version = "0.5", default-features = false }

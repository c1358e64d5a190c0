[package]
name = "simdisk"
version = "0.1.0"
edition = "2021"
publish = false

[dependencies]
chrono = "0.4"
getopts = "0.2"
serde = { version = "1", features = ["derive"] }
serde_json = "1"
threadpool = "1"

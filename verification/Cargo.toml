[package]
name = "matching_engine"
version = "0.1.0"
edition = "2021"
publish = false

[dependencies]
intmap = "2.0"
rand = "0.8"
chrono = { version = "0.4", default-features = false, features = ["clock"] }

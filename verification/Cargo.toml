[package]
name = "wender"
version = "0.1.0"
edition = "2021"
publish = false

[dependencies]
bincode = "1"
serde = "1"
ndarray = { version = "0.15", features = ["serde"] }

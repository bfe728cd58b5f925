[package]
name = "gemini"
version = "0.1.0"
edition = "2021"
publish = false

[dependencies]
ark-bls12-381 = "0.4"
ark-ec = "0.4"
ark-ff = "0.4"
ark-poly = "0.4"
ark-serialize = { version = "0.4", features = ["derive"] }
ark-std = "0.4"

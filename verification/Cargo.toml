[package]
name = "rinha_vini"
version = "0.1.0"
edition = "2021"
publish = false

[dependencies]
flate2 = "1"
memmap2 = "0.9"
tokio = { version = "1", features = ["rt", "net", "io-util", "macros"] }

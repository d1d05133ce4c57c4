[package]
name = "pagedb"
version = "0.1.0"
edition = "2021"
publish = false

[dependencies]
anyhow = "*"
bitflags = "*"
tokio = { version = "*", features = ["fs", "io-util", "rt"] }

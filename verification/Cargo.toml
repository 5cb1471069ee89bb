[package]
name = "systems_lab"
version = "0.1.0"
edition = "2021"
publish = false

[dependencies]
rayon = "1"
stm = "0.4"
tokio = { version = "1", features = ["full"] }
io-uring = "0.7"
rand = "0.8"

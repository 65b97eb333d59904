[package]
name = "sisyphus"
version = "0.1.0"
edition = "2021"
publish = false

[dependencies]
arrayvec = "0.7"
rand = "0.8"
rand_chacha = "0.3"
clap = { version = "4", features = ["derive"] }

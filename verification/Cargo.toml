[package]
name = "jigshuffle"
version = "0.1.0"
edition = "2021"
publish = false

[dependencies]
rand = "0.8"
rand_xoshiro = "0.6"
anyhow = "1"
clap = { version = "4", features = ["derive"] }
image = "0.24"
sha2 = "0.10"

[package]
name = "hyperfine"
version = "0.1.0"
edition = "2021"
publish = false

[dependencies]
anyhow = "1"
colored = "2"
indicatif = "0.17"
rand = "0.8"
rand_chacha = "0.3"
serde = { version = "1", features = ["derive"] }
statistical = "1"

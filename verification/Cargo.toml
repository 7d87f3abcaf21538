[package]
name = "sff"
version = "0.1.0"
edition = "2021"
publish = false

[dependencies]
anyhow = "=1.0.104"
clap = { version = "=4.6.7", features = ["derive"] }
comfy-table = "=8.0.1"
indicatif = "=0.18.6"
model2vec-rs = "=0.3.0"
ndarray = "=0.17.2"
rayon = "=1.12.0"
walkdir = "=2.5.0"

[dev-dependencies]
percent-encoding = "=2.3.2"

[package]
name = "word_ladder"
version = "0.1.0"
edition = "2021"
publish = false

[dependencies]
rand = "=0.8.8"
anyhow = "=1.0.104"
clap = { version = "=4.6.7", features = ["derive"] }
lazy_static = "=1.5.1"
eframe = { version = "0.23", default-features = false, features = ["glow"] }

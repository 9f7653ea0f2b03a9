[package]
name = "rudiments"
version = "0.1.0"
edition = "2021"
publish = false

[dependencies]
bitvec = "0.18"
clap = { version = "3", features = ["derive"] }
nom = "5"
rodio = "0.11"
thiserror = "1"

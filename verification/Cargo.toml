[package]
name = "ppknn"
version = "0.1.0"
edition = "2021"
publish = false

[dependencies]
tfhe = { version = "0.1", features = ["shortint", "x86_64-unix"] }
bincode = "1"
clap = { version = "4", features = ["derive"] }
csv = "1"
rayon = "1"

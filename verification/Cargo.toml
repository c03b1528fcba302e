[package]
name = "exoncount"
version = "0.1.0"
edition = "2021"
publish = false

[dependencies]
anyhow = "*"
clap = { version = "*", features = ["derive"] }
csv = "*"
flate2 = "*"
rayon = "*"
rust-htslib = { version = "*", default-features = false }

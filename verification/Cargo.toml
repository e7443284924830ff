[package]
name = "niuristic"
version = "0.1.0"
edition = "2021"
publish = false

[dependencies]
rand = "0.8"
rand_pcg = "0.3"
rand_distr = "0.4"
proconio = "0.4"
itertools = "*"
nalgebra = "*"
anyhow = "1"
clap = { version = "4", features = ["derive"] }
indicatif = { version = "0.17", features = ["rayon"] }
rayon = "1"
walkdir = "2"

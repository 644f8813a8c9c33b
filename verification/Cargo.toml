[package]
name = "markov_chain"
version = "0.1.0"
edition = "2021"
publish = false

[dependencies]
rand = "=0.8.8"
nalgebra = "=0.35.0"
clap = { version = "=4.6.7", features = ["derive"] }

[dev-dependencies]
itertools = "=0.15.0"

[package]
name = "slae_grader"
version = "0.1.0"
edition = "2021"
publish = false

[dependencies]
rand = { version = "0.8", features = ["small_rng"] }
clap = { version = "3", features = ["derive"] }
sha2 = "0.10"

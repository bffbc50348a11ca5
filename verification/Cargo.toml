[package]
name = "ltl_learner"
version = "0.1.0"
edition = "2021"
publish = false

[dependencies]
minisat = "*"
itertools = "*"
serde = { version = "*", features = ["derive"] }
serde_json = "*"
clap = { version = "*", features = ["derive"] }

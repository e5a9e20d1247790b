[package]
name = "idm-rs"
version = "1.0.0"
edition = "2021"
publish = false

[dependencies]
clap = "3.2"
num_cpus = "1"
reqwest = { version = "0.11", features = ["blocking"] }
threadpool = "1"

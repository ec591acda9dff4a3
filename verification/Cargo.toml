[package]
name = "port_scanner"
version = "0.1.0"
edition = "2021"
publish = false

[dependencies]
itertools = "0.10"
num_cpus = "1"
threadpool = "1"
serde = { version = "1", features = ["derive"] }
serde_json = "1"
clap = "2"

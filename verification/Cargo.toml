[package]
name = "cmap"
version = "0.1.0"
edition = "2021"
publish = false

[dependencies]
num_cpus = "1"
quanta = "*"
rand = "0.8"
tokio = { version = "1", default-features = false, features = ["sync"] }

[package]
name = "ip_generators"
version = "0.1.0"
edition = "2021"
publish = false

[dependencies]
rand = "0.8"
rand_chacha = { version = "0.3", features = ["serde1"] }
serde = { version = "1", features = ["derive"] }
serde_json = "1"
clap = { version = "4", features = ["derive"] }
ctrlc = "3"
dns-lookup = "2"
human-sort = "0.2"
num-bigint = "0.4"
num-traits = "0.2"
pad = "0.1"

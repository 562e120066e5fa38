[package]
name = "blockchain_pow_julia"
version = "0.1.0"
edition = "2021"
publish = false

[dependencies]
clap = { version = "4", features = ["derive"] }
color-eyre = "0.6"
itertools = "0.12"
num = "0.4"
p256 = "0.13"
petgraph = "0.6"
rand = "0.8"
sha2 = "0.10"
thiserror = "1"
tracing = "0.1"
tracing-subscriber = { version = "0.3", features = ["env-filter"] }

[package]
name = "matmul_bench"
version = "0.1.0"
edition = "2021"
publish = false

[dependencies]
clap = { version = "4", features = ["derive"] }
cli-table = "0.4"
colored = "2"
env_logger = "0.10"
log = "0.4"
rand = "0.8"

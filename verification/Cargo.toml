[package]
name = "minhash_cluster"
version = "0.1.0"
edition = "2021"
publish = false

[dependencies]
anyhow = "1"
clap = { version = "4", features = ["derive"] }
fxhash = "0.2"
log = "0.4"
minimizer-iter = "*"
needletail = "*"
probminhash = "*"
simple_logger = "*"

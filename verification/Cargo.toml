[package]
name = "histogram"
version = "0.1.0"
edition = "2021"
publish = false

[dependencies]
clap = { version = "3", features = ["derive"] }
colored = "2"
prettytable-rs = "0.10"
rand = "0.8"
rand_distr = "0.4"

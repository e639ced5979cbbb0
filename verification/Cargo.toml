[package]
name = "quantile"
version = "0.1.0"
edition = "2021"
publish = false

[dependencies]
polars-compute = { version = "*", default-features = false }

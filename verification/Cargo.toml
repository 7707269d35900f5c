[package]
name = "jacobi"
version = "0.1.0"
edition = "2021"

[dependencies]
num-bigint = "0.4"
num-bigint-dig = "0.8"

[dev-dependencies]
rand = "0.8"

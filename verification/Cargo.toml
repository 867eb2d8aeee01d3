[package]
name = "etude"
version = "0.1.0"
edition = "2021"
publish = false

[dependencies]
bytes = "1"

[dev-dependencies]
bigdecimal = "*"
num-bigint = "0.4"
num-traits = "0.2"

[package]
name = "chem_balancer"
version = "0.1.0"
edition = "2021"
publish = false

[dependencies]
num = "0.4"
regex = "1"

[dev-dependencies]
itertools = "0.13"

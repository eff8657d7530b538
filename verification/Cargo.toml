[package]
name = "high_frequency_snake"
version = "0.1.0"
edition = "2021"

[dependencies]
rand = "=0.9.5"
tinydeque = { version = "=0.1.1", features = ["alloc"] }
crossbeam-utils = "=0.8.23"
core_affinity = "=0.8.3"

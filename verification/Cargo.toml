[package]
name = "expander_coder"
version = "0.1.0"
edition = "2021"
publish = false

[dependencies]
ark-bn254 = "0.4"
ark-ff = "0.4"
rand = "0.8"
sha2 = "0.10"

[package]
name = "rust_formal_verification"
version = "0.1.0"
edition = "2021"
publish = false

[dependencies]
varisat = "=0.2.2"
splr = "=0.17.2"
cadical = "=0.1.16"
rand = "=0.10.3"
priority-queue = "=2.7.0"
num-traits = "=0.2.19"

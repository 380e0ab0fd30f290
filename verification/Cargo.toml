[package]
name = "acteur"
version = "0.1.0"
edition = "2021"
publish = false

[dependencies]
dashmap = "*"
num_cpus = "1"
async-std = "1"
async-channel = "*"
async-trait = "0.1"
futures = "0.3"
lazy_static = "1"

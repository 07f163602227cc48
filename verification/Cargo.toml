[package]
name = "httpageboy"
version = "0.1.0"
edition = "2021"
publish = false

[dependencies]
async-trait = "*"
futures = "*"
futures-lite = "*"

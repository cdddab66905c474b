[package]
name = "tickwheel"
version = "0.1.0"
edition = "2021"
publish = false

[dependencies]
zero85 = "*"
chrono = "0.4"

[package]
name = "thalweg"
version = "0.1.0"
edition = "2021"
publish = false

[dependencies]
priority-queue = "=2.7.0"
clap = { version = "=4.6.7", features = ["derive"] }

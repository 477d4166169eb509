[package]
name = "jsh"
version = "0.1.0"
edition = "2021"
publish = false

[dependencies]
simd-json = "*"
clap = { version = "3.2", features = ["derive"] }
anyhow = "1.0"
thiserror = "1.0"

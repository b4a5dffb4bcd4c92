[package]
name = "intuit_empire"
version = "0.1.0"
edition = "2021"
publish = false

[dependencies]
cairo-rs = { version = "*", default-features = false, features = ["png"] }
clap = { version = "*", features = ["derive"] }

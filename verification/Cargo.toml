[package]
name = "rusty_git"
version = "0.1.0"
edition = "2021"
publish = false

[dependencies]
sha1 = "0.10"
flate2 = "1.0"
clap = { version = "4", features = ["derive"] }

[package]
name = "toipe"
version = "0.1.0"
edition = "2021"
publish = false

[dependencies]
anyhow = "1"
clap = { version = "3", features = ["derive"] }
rand = "0.8"
termion = "1.5"

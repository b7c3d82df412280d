[package]
name = "doc"
version = "0.1.0"
edition = "2021"
publish = false

[dependencies]
ansi_term = "*"
clap = { version = "*", features = ["derive"] }
dirs = "*"
isahc = "*"
webbrowser = "*"

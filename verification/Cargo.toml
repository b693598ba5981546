[package]
name = "color_flood"
version = "0.1.0"
edition = "2021"
publish = false

[dependencies]
z3 = "*"
clap = { version = "*", features = ["derive"] }
owo-colors = "*"
atty = "*"

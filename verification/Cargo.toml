[package]
name = "scanpool"
version = "0.1.0"
edition = "2021"
publish = false

[dependencies]
chrono = "*"
clap = { version = "*", features = ["derive"] }
colour = "*"
shellexpand = "*"
which = "*"
zip = { version = "*", default-features = false }

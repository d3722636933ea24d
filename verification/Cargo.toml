[package]
name = "panacus"
version = "0.2.1"
edition = "2021"
publish = false

[dependencies]
rayon = "*"
clap = { version = "*", features = ["derive"] }
log = "*"

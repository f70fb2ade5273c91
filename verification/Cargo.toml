[package]
name = "dsd"
version = "0.1.0"
edition = "2021"
publish = false

[dependencies]
anyhow = "1"
clap = { version = "4", features = ["derive"] }
ds-rom = "*"
log = "0.4"
unarm = "1"

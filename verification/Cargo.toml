[package]
name = "backchannel"
version = "0.8.0"
edition = "2021"
publish = false

[dependencies]
anyhow = "1"
clap = { version = "4", features = ["derive"] }
humantime = "2"
libc = "0.2"
percent-encoding = "2"

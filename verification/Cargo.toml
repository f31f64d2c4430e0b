[package]
name = "memlimit"
version = "0.1.0"
edition = "2021"

[dependencies]
clap = { version = "*", features = ["derive"] }
sysinfo = "*"

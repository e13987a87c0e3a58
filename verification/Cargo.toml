[package]
name = "rmmm"
version = "0.1.0"
edition = "2021"
publish = false

[dependencies]
anyhow = "*"
chrono = "*"
clap = { version = "*", features = ["cargo", "env"] }
fern = "*"
flate2 = "*"
log = "*"
mysql = { version = "*", default-features = false }
tempfile = "*"

[package]
name = "tic_pack"
version = "0.1.0"
edition = "2021"
publish = false

[dependencies]
zopfli = "*"
flate2 = "*"
libflate = "*"
anyhow = "*"
clap = { version = "*", features = ["derive"] }
crossterm = "*"
notify = "*"

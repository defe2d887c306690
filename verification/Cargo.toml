[package]
name = "nimble"
version = "0.1.0"
edition = "2021"
publish = false

[dependencies]
md-5 = "*"
ureq = { version = "*", default-features = false }
clap = { version = "*", features = ["derive"] }
walkdir = "*"
tempfile = "*"
rayon = "*"
open = "*"
percent-encoding = "*"

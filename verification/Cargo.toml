[package]
name = "buffout"
version = "0.1.0"
edition = "2021"
publish = false

[dependencies]
clap = "=4.6.7"
flate2 = "=1.1.10"
gzp = { version = "=2.0.4", default-features = false, features = ["deflate_rust"] }

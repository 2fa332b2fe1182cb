[package]
name = "mysync"
version = "0.1.0"
edition = "2021"
publish = false

[dependencies]
memchr = "2"
flate2 = "1"
mysql = { version = "26", default-features = false, features = ["minimal-rust"] }
clap = { version = "4", features = ["derive", "env"] }

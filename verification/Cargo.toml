[package]
name = "rags"
version = "0.1.0"
edition = "2021"
publish = false

[dependencies]
chrono = "0.4"
failure = "0.1"
min-max-heap = "*"
prettytable-rs = "*"
regex = "1"
structopt = "0.3"

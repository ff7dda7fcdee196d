[package]
name = "strings_to_and_fro"
version = "0.1.0"
edition = "2021"

[dependencies]
itertools = "*"
clap = { version = "*", features = ["derive"] }
colored = "*"
quick-xml = "*"

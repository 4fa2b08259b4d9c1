[package]
name = "goldfish"
version = "0.1.0"
edition = "2021"
publish = false

[dependencies]
indexmap = "*"
anyhow = "*"
dirs = "*"
structopt = "*"

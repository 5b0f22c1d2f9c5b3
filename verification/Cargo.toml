[package]
name = "jump"
version = "0.1.0"
edition = "2021"
publish = false

[dependencies]
fuzzywuzzy = "*"
rusqlite = "*"
directories = "*"
structopt = "0.3"

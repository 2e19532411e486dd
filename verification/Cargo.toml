[package]
name = "cliquers"
version = "0.1.0"
edition = "2021"
publish = false

[dependencies]
regex = "1"
strfmt = "*"
structopt = "0.3"
walkdir = "2"

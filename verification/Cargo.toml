[package]
name = "refactorer"
version = "0.1.0"
edition = "2021"
publish = false

[dependencies]
log = "*"
rand = "*"
regex = "*"
simple_logger = "*"
structopt = "*"
walkdir = "*"

[package]
name = "kanoodle"
version = "0.1.0"
edition = "2021"
publish = false

[dependencies]
arrayvec = "*"
structopt = "*"
atty = "*"

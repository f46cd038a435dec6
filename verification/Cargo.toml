[package]
name = "plaza"
version = "0.1.0"
edition = "2021"
publish = false

[dependencies]
internship = "*"
itertools = "*"

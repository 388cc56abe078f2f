[package]
name = "lazy_java"
version = "0.1.0"
edition = "2021"
publish = false

[dependencies]
regex = "1"
globset = "0.4"
walkdir = "2"

[package]
name = "seabun"
version = "0.1.0"
edition = "2021"
publish = false

[dependencies]
ecow = "=0.3.1"
logos = "=0.16.1"
regex-syntax = "=0.8.11"
unescaper = "=0.2.0"

[package]
name = "adventure-book"
version = "0.1.0"
edition = "2021"
publish = false

[dependencies]
rand = "0.8"
regex = "1"
regex-syntax = "0.8"
dirs = "5"
fltk = "1"

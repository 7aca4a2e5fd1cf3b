[package]
name = "sheng"
version = "0.1.0"
edition = "2021"
publish = false

[dependencies]
memchr = "2"
regex-automata = "0.4"
regex-syntax = "0.8"

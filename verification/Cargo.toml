[package]
name = "regex_ring"
version = "0.1.0"
edition = "2021"

[dependencies]
regex-automata = "0.1"

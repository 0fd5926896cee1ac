[package]
name = "finite_automata"
version = "0.1.0"
edition = "2021"
publish = false

[dependencies]
itertools = "*"

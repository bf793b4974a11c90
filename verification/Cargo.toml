[package]
name = "sudoku"
version = "0.1.0"
edition = "2021"
publish = false

[dependencies]
bit-set = "0.5"
bit-vec = "0.6"
indoc = "2"
structopt = "0.3"
time = "0.1"

[package]
name = "sudoku_rs"
version = "0.1.0"
edition = "2021"
publish = false

[dependencies]
rand = "0.7"
rand_xorshift = "0.2"
rayon = "1"
structopt = "0.3"

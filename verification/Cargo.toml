[package]
name = "mcts"
version = "0.1.0"
edition = "2021"
publish = false

[dependencies]
itertools = "0.12"
ordered-float = "4"
rand = "0.8"

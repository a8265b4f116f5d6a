[package]
name = "lazy_mcts"
version = "0.1.0"
edition = "2021"
publish = false

[dependencies]
rand = "*"
ascii_tree = "*"

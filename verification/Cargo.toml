[package]
name = "mcts_lib"
version = "0.1.0"
edition = "2021"
publish = false

[dependencies]
ego-tree = "*"
fastmurmur3 = "*"
rand = "0.9"
uuid = "*"

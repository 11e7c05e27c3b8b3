[package]
name = "graph_rs"
version = "0.1.0"
edition = "2021"
publish = false

[dependencies]
map_vec = "*"
num-traits = "*"

[package]
name = "graph_analyser"
version = "0.1.0"
edition = "2021"
publish = false

[dependencies]
rustworkx-core = "*"
petgraph = "*"
rustler = "*"

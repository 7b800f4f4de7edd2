[package]
name = "rsheet"
version = "0.1.0"
edition = "2021"
publish = false

[dependencies]
dashmap = "=5.5.3"
petgraph = "=0.6.5"
rsheet_lib = "=0.1.4"

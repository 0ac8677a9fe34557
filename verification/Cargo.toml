[package]
name = "pathfinding-indexed"
version = "0.1.0"
edition = "2021"
publish = false

[dependencies]
indexmap = "2"
num-traits = "0.2"
rustc-hash = "2"

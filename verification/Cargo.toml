[package]
name = "sparse_maxscore"
version = "0.1.0"
edition = "2021"
publish = false

[dependencies]
async-trait = "0.1"
dashmap = "6"
thiserror = "1"
uuid = "1"

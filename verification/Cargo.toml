[package]
name = "spanning_tree"
version = "0.1.0"
edition = "2021"
publish = false

[dependencies]
bit-set = "*"
rayon = "*"
serde_json = "*"

[package]
name = "nextclade_to_maple"
version = "0.1.0"
edition = "2021"
publish = false

[dependencies]
argparse = "*"
csv = "*"
unbounded-interval-tree = "*"

[package]
name = "cutplan"
version = "0.1.0"
edition = "2021"
publish = false

[dependencies]
cut-optimizer-1d = "*"
gumdrop = "*"
json = "0.12"
rand = "*"
rayon = "*"

[package]
name = "find_empty_folders"
version = "0.1.0"
edition = "2021"
publish = false

[dependencies]
ring = "=0.17.14"
num256 = "0.3"
serde_json = "=1.0.154"
walkdir = "=2.5.0"
clap = "=2.34.0"
indicatif = "0.17.11"

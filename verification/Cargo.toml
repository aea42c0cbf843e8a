[package]
name = "fileforge"
version = "0.3.0"
edition = "2021"
publish = false

[dependencies]
aho-corasick = "1"
regex = "1"
serde_json = "1"
csv = "1"
memmap2 = "0.9"
anyhow = "1"
clap = { version = "4", features = ["derive"] }
indicatif = "0.17"

[package]
name = "b2g"
version = "0.1.0"
edition = "2021"
publish = false

[dependencies]
capstone = "*"
goblin = "*"
serde = "*"
serde_derive = "*"
serde_yaml = "*"
clap = "*"
yaml-rust = "*"

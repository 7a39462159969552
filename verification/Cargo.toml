[package]
name = "blogon"
version = "0.1.0"
edition = "2021"
publish = false

[dependencies]
pulldown-cmark = "*"
serde_yml = "*"
slug = "*"

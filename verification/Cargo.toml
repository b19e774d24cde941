[package]
name = "fluent_ftl_tools"
version = "0.1.0"
edition = "2021"
publish = false

[dependencies]
fluent = "*"
fluent-syntax = "*"
unic-langid = "*"
nix = { version = "*", features = ["fs"] }

[package]
name = "dialog_core"
version = "0.1.0"
edition = "2021"
publish = false

[dependencies]
rand = "0.8"
serde_json = "1"
sublime_fuzzy = "0.7"

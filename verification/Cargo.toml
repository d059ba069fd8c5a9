[package]
name = "filetree"
version = "0.1.0"
edition = "2021"
publish = false

[dependencies]
unicode-width = "0.1"
tui = { version = "0.19", default-features = false }

[package]
name = "gerard"
version = "0.1.0"
edition = "2021"
publish = false

[dependencies]
cascade = "1"
dirs = "4"
fuzzy-matcher = "0.3"
glib = "0.15"
gtk4 = "0.4"
once_cell = "1"

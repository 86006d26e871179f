[package]
name = "fsexedit"
version = "0.1.0"
edition = "2021"
publish = false

[dependencies]
anyhow = "*"
crossterm = "*"
quick-xml = "*"
ratatui = "*"
unicode_names2 = "*"

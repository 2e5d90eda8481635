[package]
name = "terrent"
version = "0.1.0"
edition = "2021"
publish = false

[dependencies]
sha1 = "*"
url = "*"
percent-encoding = "*"
anyhow = "*"
ratatui = "*"
crossterm = "*"
tui-widgets = "*"

[package]
name = "courier"
version = "0.1.0"
edition = "2021"
publish = false

[dependencies]
color-eyre = "*"
crossterm = "*"
imessage-database = "*"
ratatui = "*"
rusqlite = { version = "*", features = ["bundled"] }

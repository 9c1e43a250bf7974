[package]
name = "kwark"
version = "0.1.0"
edition = "2021"
publish = false

[dependencies]
ropey = "1"
crossterm = "*"
ratatui = "*"
indexmap = "2"
anyhow = "1"
thiserror = "*"
normpath = "1"

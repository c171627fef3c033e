[package]
name = "oxiden"
version = "0.1.0"
edition = "2021"
publish = false

[dependencies]
ropey = "1"
crossterm = "0.28"
thiserror = "2"

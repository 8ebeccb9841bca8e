[package]
name = "neoscim"
version = "0.1.0"
edition = "2021"
publish = false

[dependencies]
evalexpr = "=13.1.0"
ratatui = "=0.29.0"

[package]
name = "sudoku_tui"
version = "0.1.0"
edition = "2021"
publish = false

[dependencies]
rand = "0.10.1"
ratatui = "0.30.0"
crossterm = "0.29"

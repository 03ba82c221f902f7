[package]
name = "sudoku_sat"
version = "0.1.0"
edition = "2021"

[dependencies]
varisat = "*"

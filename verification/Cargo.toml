[package]
name = "n_queens_problem"
version = "0.1.0"
edition = "2021"
publish = false

[dependencies]
rand = "0.9"
log = "0.4"
simple_logger = "*"

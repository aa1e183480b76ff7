[package]
name = "intcomputer"
version = "0.1.0"
edition = "2021"
publish = false

[dependencies]
float-cmp = "*"
itertools = "*"
num-integer = "0.1"
num_enum = "*"
petgraph = "*"
sdl2 = "*"

[package]
name = "beam_xref"
version = "0.1.0"
edition = "2021"
publish = false

[dependencies]
petgraph = "*"
regex = "*"
beam_file = "*"
string-interner = "*"
pico-args = "*"

[package]
name = "advent"
version = "0.1.0"
edition = "2021"
publish = false

[dependencies]
bitvec = "=1.1.1"
regex = "=1.13.1"
scan_fmt = "=0.2.6"

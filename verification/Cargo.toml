[package]
name = "lol_html"
version = "0.1.0"
edition = "2021"
publish = false

[dependencies]
encoding_rs = "0.8"
selectors = "*"
cssparser = "*"
precomputed-hash = "0.1"
bitflags = "2"

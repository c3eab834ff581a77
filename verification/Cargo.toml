[package]
name = "fontcache"
version = "0.1.0"
edition = "2021"
publish = false

[dependencies]
skrifa = "*"
harfrust = "*"
zeno = "*"
etagere = "*"
rayon = "*"

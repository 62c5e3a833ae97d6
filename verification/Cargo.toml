[package]
name = "gigatoken"
version = "0.1.0"
edition = "2021"
publish = false

[dependencies]
icu = "=2.4.0"
aho-corasick = "=1.1.5"
sonic-rs = "=0.5.10"
rustc-hash = "=2.1.3"
itertools = "=0.14.0"
eyre = "=0.6.14"
flate2 = "=1.1.10"
zstd = "=0.13.4"
memmap2 = "=0.9.12"
rayon = "=1.12.0"
ureq = "=3.5.1"
pyo3 = "=0.30.1"
numpy = "=0.30.0"
indicatif = "=0.18.6"

[dev-dependencies]
fancy-regex = "*"

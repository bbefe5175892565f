[package]
name = "rust_bam_tools"
version = "0.1.0"
edition = "2021"
publish = false

[dependencies]
rust-htslib = { version = "=0.46.0", default-features = false }
hts-sys = { version = "=2.1.1", default-features = false }
rayon = "=1.12.0"
tempfile = "=3.27.0"
failure = "=0.1.8"
log = "=0.4.34"
simplelog = "=0.12.2"
ctrlc = "=3.5.2"
pyo3 = { version = "=0.20.3", features = ["extension-module"] }

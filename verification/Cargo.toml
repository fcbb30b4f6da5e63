[package]
name = "holos_tda"
version = "0.1.0"
edition = "2021"
publish = false

[dependencies]
sha2 = "=0.10.9"
rustc-hash = "=2.1.3"

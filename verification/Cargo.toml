[package]
name = "wp_verifier"
version = "0.1.0"
edition = "2021"
publish = false

[dependencies]
z3 = "=0.22.0"
wasm-bindgen = "=0.2.130"

[dev-dependencies]
regex = "1"

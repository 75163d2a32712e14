[package]
name = "core_wasm"
version = "0.1.0"
edition = "2021"
publish = false

[dependencies]
wasm-bindgen = "=0.2.130"
console_error_panic_hook = "=0.1.7"
rustfft = "=6.4.1"
rand = "=0.8.8"

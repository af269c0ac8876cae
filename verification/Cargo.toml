[package]
name = "streamguard"
version = "0.1.0"
edition = "2021"
publish = false

[dependencies]
jni = "0.21"
js-sys = "0.3"
pyo3 = "0.22"
wasm-bindgen = "0.2"

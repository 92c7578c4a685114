[package]
name = "itempool"
version = "0.1.0"
edition = "2021"
publish = false

[dependencies]
rand = "=0.9.5"
getrandom = { version = "=0.3.4", features = ["wasm_js"] }

[package]
name = "sudoku_rs"
version = "0.1.0"
edition = "2021"
publish = false

[dependencies]
itertools = "*"
rand = "0.9"
web-time = "1"
thiserror = "*"
serde = { version = "1", features = ["derive"] }
serde-wasm-bindgen = "*"
wasm-bindgen = "*"
web-sys = { version = "*", features = ["console"] }

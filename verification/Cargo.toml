[package]
name = "sudoko"
version = "0.1.0"
edition = "2021"
publish = false

[dependencies]
rand = "0.8"
serde = { version = "1", features = ["derive"] }
anyhow = "1"
crossterm = "*"
ratatui = "*"
wasm-bindgen = "0.2"
console_error_panic_hook = "0.1"

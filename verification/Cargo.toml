[package]
name = "battleship_odds"
version = "0.1.0"
edition = "2021"
publish = false

[dependencies]
colorous = "1"
console_error_panic_hook = "0.1"
console_log = "1"
log = "0.4"
wasm-bindgen = "0.2"
web-sys = { version = "0.3", features = ["Document", "Element", "HtmlCollection", "HtmlInputElement", "Node", "Window"] }

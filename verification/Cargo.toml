[package]
name = "unfurl"
version = "0.1.0"
edition = "2021"
publish = false

[dependencies]
serde_json = "1"
eframe = { version = "0.31", default-features = false, features = ["glow"] }
dirs = "5"
env_logger = "0.11"
log = "0.4"
web-sys = { version = "0.3", features = ["Window", "Storage", "Document", "Element", "HtmlCanvasElement"] }
wasm-bindgen-futures = "0.4"

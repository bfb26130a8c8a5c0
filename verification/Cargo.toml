[package]
name = "connect_torus"
version = "0.1.0"
edition = "2021"
publish = false

[dependencies]
log = "=0.4.34"
mysql = "*"
rand = "0.8"
reqwasm = "=0.5.0"
rocket = { version = "0.5", features = ["json"] }
serde = { version = "=1.0.229", features = ["derive"] }
serde_json = "=1.0.151"
wasm-bindgen = "=0.2.129"
wasm-bindgen-futures = "=0.4.79"
wasm-cookies = "=0.2.1"
wasm-logger = "=0.2.0"
web-sys = { version = "=0.3.106", features = ["Event", "EventTarget", "HtmlInputElement"] }
yew = "=0.21.0"
yew-router = "=0.18.0"

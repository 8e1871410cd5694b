[package]
name = "rogue_boi"
version = "0.1.0"
edition = "2021"
publish = false

[dependencies]
arrayvec = "=0.7.8"
base64 = "=0.21.7"
cecs = "=0.1.11"
ciborium = "=0.2.2"
lazy_static = "=1.5.1"
rand = "=0.8.8"
serde = { version = "=1.0.229", features = ["derive"] }
serde_json = "=1.0.154"
serde-wasm-bindgen = "=0.6.5"
smallvec = "=1.16.4"
thiserror = "=1.0.69"
tracing = "=0.1.44"
tracing-wasm = "=0.2.1"
wasm-bindgen = "=0.2.130"
web-sys = { version = "=0.3.107", features = ["CanvasRenderingContext2d", "HtmlCanvasElement", "MouseEvent", "Path2d"] }

[package]
name = "reb"
version = "0.1.0"
edition = "2021"
publish = false

[dependencies]
slotmap = "=1.1.1"
html-tags = { version = "=0.0.12", default-features = false, features = ["alloc"] }
html5ever = "=0.26.0"
lightningcss = { version = "=1.0.0-alpha.72", default-features = false, features = ["into_owned"] }
tracing = "=0.1.44"
tracing-subscriber = "=0.3.23"
tokio = { version = "=1.54.1", features = ["rt-multi-thread"] }
winit = "=0.28.7"
softbuffer = "=0.2.1"
cosmic-text = "=0.8.0"
tiny-skia = "=0.8.4"
bytemuck = "=1.25.2"
console_error_panic_hook = "0.1"
lol_alloc = "*"
tracing-wasm = "0.2"
wasm-bindgen-futures = "0.4"
web-sys = { version = "0.3", features = ["Window", "Document", "HtmlElement", "Element", "Node"] }

[package]
name = "nabla_game"
version = "0.1.0"
edition = "2021"
publish = false

[dependencies]
rand = "0.8"
wasm-bindgen = "0.2"
js-sys = "0.3"
web-sys = { version = "0.3", features = ["Window", "Document", "Element", "HtmlElement", "HtmlCanvasElement", "HtmlInputElement", "HtmlCollection", "CanvasRenderingContext2d", "MouseEvent", "Event", "EventTarget", "Node", "console"] }
gloo = "0.8"
console_error_panic_hook = "0.1"
wee_alloc = "0.4"

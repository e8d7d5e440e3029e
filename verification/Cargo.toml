[package]
name = "yew"
version = "0.1.0"
edition = "2021"
publish = false

[dependencies]
cfg-if = "*"
failure = "*"
proc-macro2 = "*"
quote = "*"
serde = { version = "*", features = ["derive"] }
serde_json = "*"
serde_yaml = "*"
syn = { version = "*", features = ["full"] }
wasm-bindgen = "*"
web-sys = { version = "*", features = ["Document", "DomTokenList", "Element", "HtmlElement", "HtmlInputElement", "Node", "NodeList", "Text", "Window"] }

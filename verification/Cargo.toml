[package]
name = "wordgraph"
version = "0.1.0"
edition = "2021"
publish = false

[dependencies]
gloo = "*"
js-sys = "*"
pdfium-render = "*"
wasm-bindgen = "*"
web-sys = { version = "*", features = ["console", "DragEvent", "Event", "File", "FileList", "HtmlInputElement"] }
yew = { version = "*", features = ["csr"] }

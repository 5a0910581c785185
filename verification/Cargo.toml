[package]
name = "aetheria"
version = "0.1.0"
edition = "2021"
publish = false

[dependencies]
pulldown-cmark = { version = "*", default-features = false }
serde_json = "1"
serde = { version = "1", features = ["derive"] }
html-escape = "*"
urlencoding = "*"
leptos = { version = "0.8", features = ["csr"] }
leptos_router = "0.8"
gloo-net = { version = "0.6", default-features = false, features = ["http", "json"] }
gloo-timers = { version = "0.3", features = ["futures"] }
js-sys = "0.3"
wasm-bindgen = "0.2"
wasm-bindgen-futures = "0.4"
web-sys = { version = "0.3", features = ["Window", "Document", "Element", "HtmlElement", "CssStyleDeclaration", "DomTokenList", "Storage", "Blob", "BlobPropertyBag", "Url", "HtmlAnchorElement", "RequestInit", "RequestCredentials", "Headers", "Request", "Response", "ReadableStream", "ReadableStreamDefaultReader", "TextDecoder", "TextDecodeOptions", "FormData", "File", "FileList", "HtmlInputElement", "console"] }

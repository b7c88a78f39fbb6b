[package]
name = "gigatrace"
version = "0.1.0"
edition = "2021"
publish = false

[dependencies]
tinyvec = "1"
anyhow = "1"
humantime = "2"
serde = { version = "1", features = ["derive"] }
serde_json = "1"
tracing = "0.1"
tracing-wasm = "0.2"
wasm-bindgen = { version = "0.2", features = ["serde-serialize"] }
web-sys = { version = "0.3", features = ["CanvasRenderingContext2d", "CssStyleDeclaration", "Document", "Element", "File", "HtmlCanvasElement", "HtmlDivElement", "HtmlElement", "HtmlParagraphElement", "MouseEvent", "TextMetrics", "Window"] }
wee_alloc = "0.4"
yew = "0.17"

[dev-dependencies]
fastrand = "1"

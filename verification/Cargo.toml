[package]
name = "ruwr"
version = "0.1.0"
edition = "2021"
publish = false

[dependencies]
glam = "=0.30.10"
wasm-bindgen = "=0.2.100"
js-sys = "=0.3.77"
web-sys = { version = "=0.3.77", features = ["Window", "Document", "Element", "HtmlCanvasElement", "WebGl2RenderingContext", "WebGlBuffer", "WebGlProgram", "WebGlShader", "WebGlVertexArrayObject", "WebGlUniformLocation", "Performance", "console"] }

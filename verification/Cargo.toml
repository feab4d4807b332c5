[package]
name = "charpaint"
version = "0.1.0"
edition = "2021"
publish = false

[dependencies]
wasm-bindgen = "=0.2.130"
wasm-bindgen-futures = "=0.4.80"
js-sys = "=0.3.107"
console_error_panic_hook = "=0.1.7"
chrono = { version = "0.4", default-features = false, features = ["clock"] }
web-sys = { version = "=0.3.107", features = ["Window", "Document", "Element", "HtmlElement", "HtmlInputElement", "HtmlCanvasElement", "HtmlImageElement", "CanvasRenderingContext2d", "ImageData", "MouseEvent", "KeyboardEvent", "TouchEvent", "Touch", "TouchList", "WheelEvent", "PointerEvent", "DragEvent", "DataTransfer", "File", "FileList", "Blob", "Url", "Event", "EventTarget", "Node", "NodeList", "DomTokenList", "DomRect", "UiEvent"] }

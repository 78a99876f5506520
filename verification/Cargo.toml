[package]
name = "lemons_search"
version = "0.1.0"
edition = "2021"
publish = false

[dependencies]
nucleo-matcher = "=0.3.1"
unicode-segmentation = "=1.13.3"
wasm-bindgen = "=0.2.129"
wasm-bindgen-futures = "=0.4.79"
web-sys = { version = "=0.3.106", features = ["Element", "HtmlElement", "HtmlCollection", "Event", "KeyboardEvent"] }
leptos = { version = "=0.6.15", features = ["csr"] }
leptos-use = "=0.13.13"
speedy = "=0.8.7"
console_error_panic_hook = "=0.1.7"

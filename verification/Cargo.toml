[package]
name = "rogue_swarm"
version = "0.1.0"
edition = "2021"
publish = false

[dependencies]
axum = { version = "0.8", features = ["ws"] }
bevy = { version = "0.15", default-features = false }
bincode = "1.3"
console_error_panic_hook = "0.1"
console_log = "1"
futures-util = "0.3"
js-sys = "0.3"
log = "0.4"
once_cell = "1"
rand = "0.8"
serde = { version = "1", features = ["derive"] }
tokio = { version = "1", features = ["macros", "rt-multi-thread", "sync", "net", "time"] }
tower-http = { version = "0.6", features = ["fs"] }
wasm-bindgen = "0.2"
web-sys = { version = "0.3", features = ["CanvasRenderingContext2d", "Window", "Document", "Element", "HtmlCanvasElement"] }

[package]
name = "typst-web"
version = "0.1.0"
edition = "2021"
publish = false

[dependencies]
sha2 = "=0.10.9"
regex = "=1.13.1"
base64 = "=0.22.1"
flate2 = "=1.1.10"
tar = "=0.4.46"
serde = { version = "=1.0.229", features = ["derive"] }
serde_json = "=1.0.154"
time = { version = "=0.3.55", features = ["wasm-bindgen"] }
tokio = { version = "=1.54.1", default-features = false, features = ["rt"] }
reqwest = { version = "=0.13.5", default-features = false, features = ["json"] }
dioxus = { version = "=0.7.10", default-features = false, features = ["macro", "html", "signals", "hooks", "launch"] }
typst = "=0.15.1"
typst-as-lib = { version = "=0.17.0", default-features = false }
typst-svg = "=0.15.1"
typst-assets = { version = "=0.15.1", features = ["fonts"] }
gloo-net = { version = "=0.7.0", default-features = false, features = ["http", "json"] }
js-sys = "=0.3.107"
web-sys = { version = "=0.3.107", features = ["Storage", "Window"] }

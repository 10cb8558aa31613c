[package]
name = "mini_canvas"
version = "0.1.0"
edition = "2021"
publish = false

[dependencies]
tiny-skia = "0.11"
fontdue = "0.9"
image = { version = "0.25", default-features = false, features = ["png", "jpeg"] }
png = "0.17"
wasm-bindgen = "0.2"

[package]
name = "rosu_mania"
version = "2026.9.22"
edition = "2021"
publish = false

[dependencies]
rosu-pp = "4"
rosu-mods = { version = "*", features = ["serde"] }
serde = { version = "1", features = ["derive"] }
wasm-bindgen = "0.2"
js-sys = "0.3"

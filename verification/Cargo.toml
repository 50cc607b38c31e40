[package]
name = "phomo"
version = "0.1.0"
edition = "2021"
publish = false

[dependencies]
image = { version = "0.25", default-features = false, features = ["png", "jpeg"] }
serde = { version = "1", features = ["derive"] }
thiserror = "*"
clap = { version = "4", features = ["derive"] }
clap-verbosity-flag = "*"
env_logger = "*"
log = "0.4"
rayon = "1"
indicatif = "*"
palette = "*"
base64 = "*"
wasm-bindgen = "*"
js-sys = "*"
serde-wasm-bindgen = "*"
console_error_panic_hook = "*"
wasm-logger = "*"

[dev-dependencies]
serde_json = "1"

[package]
name = "kokoro"
version = "0.1.0"
edition = "2021"
publish = false

[dependencies]
anyhow = "1"
dashmap = "6"
flume = "0.11"
libloading = "0.8"
parking_lot = "0.12"
proc-macro2 = "1"
quote = "1"
rand = "0.8"
rayon = "1"
syn = { version = "2", features = ["full", "extra-traits"] }
toml = "0.8"
wasmtime = "24"
wasmtime-wasi = "24"

[dev-dependencies]
nom = "7"

[package]
name = "vortex"
version = "0.1.0"
edition = "2021"
publish = false

[dependencies]
async-trait = "0.1"
base64 = "0.22"
bytes = "1"
libc = "0.2"
object_store = { version = "0.12", default-features = false, features = ["fs"] }
slatedb = { version = "0.10", default-features = false }
tokio = { version = "1", features = ["full"] }
tokio-util = "0.7"
uuid = { version = "1", features = ["v4"] }
wasi = "0.14"
wasmtime = "44"
wasmtime-wasi = "44"
wasmtime-wasi-http = "44"

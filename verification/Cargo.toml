[package]
name = "diagv"
version = "0.1.0"
edition = "2021"
publish = false

[dependencies]
anyhow = "1"
console_error_panic_hook = "0.1"
console_log = "1"
dot-parser = "*"
icondata_mdi = "*"
itertools = "0.14"
leptos = { version = "0.7", features = ["csr"] }
log = "0.4"
thaw = { version = "0.4", features = ["csr"] }

[package]
name = "query_plan"
version = "0.1.0"
edition = "2021"
publish = false

[dependencies]
itertools = "*"
nom = "7"
wasm-bindgen = "0.2"
web-sys = { version = "0.3", features = ["HtmlTextAreaElement"] }
yew = { version = "0.21", features = ["csr"] }

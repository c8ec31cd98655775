[package]
name = "embed_anything_binding"
version = "0.1.0"
edition = "2021"
publish = false

[dependencies]
libc = "0.2"
ort = { version = "2.0.0-rc.15", default-features = false, features = ["load-dynamic"] }
tokio = { version = "1", default-features = false, features = ["rt-multi-thread"] }

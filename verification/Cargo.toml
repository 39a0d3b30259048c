[package]
name = "paged_doc"
version = "0.1.0"
edition = "2021"
publish = false

[dependencies]
zip = { version = "*", default-features = false, features = ["deflate"] }
quick-xml = "*"
base64 = "*"
serde = { version = "1", features = ["derive"] }
serde_json = "1"

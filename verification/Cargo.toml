[package]
name = "siromix"
version = "0.1.0"
edition = "2021"
publish = false

[dependencies]
rand = "0.8"
zip = "0.6"
rust_xlsxwriter = "*"
serde = { version = "1", features = ["derive"] }
serde_json = "1"

[package]
name = "pdf_replacer"
version = "0.1.0"
edition = "2021"
publish = false

[dependencies]
lopdf = "=0.31.0"
adobe-cmap-parser = "*"
serde = { version = "*", features = ["derive"] }
serde_json = "*"
structopt = "*"

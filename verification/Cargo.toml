[package]
name = "quietlibrary"
version = "0.1.0"
edition = "2021"
publish = false

[dependencies]
tantivy = "*"
lopdf = "*"
pulldown-cmark = "*"
html2text = "*"
rayon = "*"
serde = { version = "*", features = ["derive"] }
serde_json = "*"
once_cell = "*"
uuid = { version = "*", features = ["v4"] }
time = { version = "*", features = ["formatting"] }
pdfium-render = "*"

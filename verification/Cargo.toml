[package]
name = "invoice_printer"
version = "0.1.0"
edition = "2021"
publish = false

[dependencies]
anyhow = "1"
clap = { version = "4", features = ["derive"] }
comfy-table = "7"
pdfium-render = "0.8"
regex = "1"
walkdir = "2"

[package]
name = "fatou_lsp"
version = "0.1.0"
edition = "2021"
publish = false

[dependencies]
crossbeam-channel = "=0.5.17"
log = "=0.4.35"
lsp-server = "=0.7.9"
lsp-types = "=0.97.0"
rayon = "=1.12.0"
serde = { version = "=1.0.229", features = ["derive"] }
serde_json = "=1.0.154"
similar = "=3.2.1"

[package]
name = "mdpeek"
version = "0.1.0"
edition = "2021"
publish = false

[dependencies]
sha2 = "*"
pulldown-cmark = { version = "*", default-features = false }
tiktoken-rs = "*"
ignore = "*"
dirs = "*"
rusqlite = { version = "*", features = ["bundled"] }
tantivy = "*"
backon = "*"
serde_json = "*"
clap = { version = "*", features = ["derive"] }
anyhow = "*"

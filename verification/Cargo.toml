[package]
name = "typedown"
version = "0.1.0"
edition = "2021"
publish = false

[dependencies]
anyhow = "1"
chrono = "0.4"
clap = { version = "4", features = ["derive"] }
git2 = { version = "0.20", default-features = false }
globset = "0.4"
gray_matter = "0.2"
ignore = "0.4"
indexmap = { version = "2", features = ["serde"] }
jsonschema = { version = "*", default-features = false }
lsp-server = "0.7"
lsp-types = "0.97"
pulldown-cmark = { version = "0.13", default-features = false }
rayon = "1"
serde = { version = "1", features = ["derive"] }
serde_json = "1"
serde_yaml = "0.9"
tracing = "0.1"
tracing-subscriber = { version = "0.3", features = ["env-filter"] }
walkdir = "2"

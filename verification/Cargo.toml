[package]
name = "notemancy_core"
version = "0.1.0"
edition = "2021"
publish = false

[dependencies]
rust-stemmers = "*"
mime_guess = "*"
serde_json = "*"
serde = { version = "*", features = ["derive"] }
serde_yaml = "*"
rusqlite = { version = "*", features = ["bundled"] }
ignore = "*"
rayon = "*"
chrono = "*"
dirs = "*"
tantivy = "*"

[dev-dependencies]
rand = "*"

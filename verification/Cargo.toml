[package]
name = "patent_tagger"
version = "0.1.0"
edition = "2021"
publish = false

[dependencies]
roxmltree = "*"
tiff = "*"
png = "*"
serde = { version = "1", features = ["derive"] }
serde_json = "1"
rusqlite = { version = "*", features = ["bundled"] }
thiserror = "*"
reqwest = { version = "0.12", default-features = false }
tokio = { version = "1", features = ["sync", "time", "macros", "rt"] }
rand = "*"

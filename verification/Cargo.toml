[package]
name = "ubuntu_docs_indexer"
version = "0.1.0"
edition = "2021"
publish = false

[dependencies]
anyhow = "1"
arrow-array = "=60.1.0"
arrow-schema = "=60.1.0"
clap = { version = "4", features = ["derive"] }
fastembed = { version = "=7.5.0", default-features = false, features = ["ort-load-dynamic", "hf-hub-rustls-tls"] }
flate2 = "1"
indicatif = "=0.18.6"
pulldown-cmark = { version = "=0.13.6", default-features = false }
serde = { version = "1", features = ["derive"] }
tar = "0.4"
text-splitter = "=0.33.1"
tokio = { version = "1", features = ["rt-multi-thread", "macros"] }
toml = "=1.1.8"

[package]
name = "corpus"
version = "0.1.0"
edition = "2021"
publish = false

[dependencies]
anyhow = "1"
async-trait = "0.1"
blake3 = "1"
dirs = "*"
globset = "0.4"
ignore = "0.4"
pulldown-cmark = { version = "*", default-features = false }
rig-core = { version = "0.38" }
rmcp = { version = "1.7", features = ["server", "transport-io"] }
serde = { version = "1", features = ["derive"] }
serde_json = "1"
tantivy = "*"
tokio = { version = "1", features = ["macros", "rt-multi-thread"] }
tracing = "0.1"
tracing-subscriber = { version = "0.3", features = ["env-filter"] }

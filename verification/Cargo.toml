[package]
name = "kg_core"
version = "0.1.0"
edition = "2021"
publish = false

[dependencies]
petgraph = "*"
serde = { version = "1", features = ["derive"] }
serde_json = "1"
clap = { version = "4", features = ["derive", "env"] }
gray_matter = "0.3"
ignore = "0.4"
rusqlite = { version = "0.35", features = ["bundled"] }
thiserror = "2"
tracing = "0.1"
tracing-subscriber = { version = "0.3", features = ["env-filter"] }

[package]
name = "docmost_local_mcp"
version = "0.1.0"
edition = "2021"
publish = false

[dependencies]
rmcp = { version = "*", features = ["server", "macros", "schemars"] }
serde = { version = "1", features = ["derive"] }
serde_json = "1"

[dev-dependencies]
pulldown-cmark = { version = "*", default-features = false }

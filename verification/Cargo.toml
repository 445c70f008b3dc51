[package]
name = "agent_mcp"
version = "0.1.0"
edition = "2021"
publish = false

[dependencies]
ropey = "1.6"
lru = "0.12"
rand = "0.8"
tree-sitter = "0.20"
tree-sitter-typescript = "0.20"
tree-sitter-rust = "0.20"
tree-sitter-java = "0.20"
walkdir = "2"
serde = { version = "1", features = ["derive"] }
serde_json = "1"
schemars = "*"
anyhow = "1"
libc = "0.2"
tokio = { version = "1", features = ["full"] }
rmcp = { version = "*", features = ["server", "macros", "transport-io"] }

[dev-dependencies]
tempfile = "3"

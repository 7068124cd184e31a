[package]
name = "tool_monitor"
version = "0.1.0"
edition = "2021"
publish = false

[dependencies]
anyhow = "1"
async-trait = "0.1"
rmcp = { version = "*", default-features = false }
serde_json = "1"

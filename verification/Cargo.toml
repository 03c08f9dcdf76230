[package]
name = "tool_stream_parsers"
version = "0.1.0"
edition = "2021"
publish = false

[dependencies]
anyhow = "1"
dynamo-parsers = "=11.0.1"
serde_json = { version = "=1.0.154", features = ["preserve_order"] }
tracing = "0.1"

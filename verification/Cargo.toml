[package]
name = "gpui_mcp"
version = "0.1.0"
edition = "2021"
publish = false

[dependencies]
gpui-pre = { version = "=0.3.6", default-features = false }
accesskit = "*"
tokio = { version = "1", features = ["sync", "time", "rt", "macros"] }

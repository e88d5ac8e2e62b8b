[package]
name = "docu_retriever"
version = "0.1.0"
edition = "2021"
publish = false

[dependencies]
pulldown-cmark = "=0.12.2"
text-splitter = { version = "=0.33.1", features = ["markdown"] }
anyhow = "=1.0.104"
thiserror = "=1.0.69"
serde = { version = "=1.0.229", features = ["derive"] }
serde_json = "=1.0.154"
clap = { version = "=4.6.7", features = ["derive", "env"] }
tokio = { version = "=1.54.1", features = ["macros", "rt-multi-thread"] }
async-trait = "=0.1.92"
walkdir = "=2.5.0"
uuid = { version = "=1.29.0", features = ["v4"] }
futures = "=0.3.34"
arrow-array = "=60.1.0"
arrow-schema = "=60.1.0"
async-openai = { version = "=0.43.0", features = ["embedding"] }
fastembed = { version = "=7.5.0", default-features = false, features = ["onnx", "hf-hub-rustls-tls"] }

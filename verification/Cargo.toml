[package]
name = "llman"
version = "0.1.0"
edition = "2021"
publish = false

[dependencies]
base64 = "*"
chacha20poly1305 = "*"
rand = "*"
keyring = "*"
clap = { version = "*", features = ["derive"] }
home = "*"
indicatif = "*"
tokio = { version = "*", features = ["macros", "rt-multi-thread"] }
ollama-rs = "*"
openai_api_rust = "*"
gemini-rust = "*"

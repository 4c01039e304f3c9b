[package]
name = "muggle_translator"
version = "0.1.0"
edition = "2021"
publish = false

[dependencies]
anyhow = "1"
base64 = "0.22"
clap = { version = "4", features = ["derive"] }
encoding_rs = "0.8"
hex = "0.4"
llama-cpp-2 = "*"
once_cell = "1"
quick-xml = "0.37"
regex = "1"
serde = { version = "1", features = ["derive"] }
serde_json = "1"
sha2 = "0.10"
toml = "0.8"
zip = { version = "2", default-features = false, features = ["deflate"] }

[package]
name = "jylsp"
version = "0.1.0"
edition = "2021"
publish = false

[dependencies]
anyhow = "1"
clap = { version = "4", features = ["derive"] }
jsonc-parser = "=0.34.0"
jsonschema = { version = "=0.46.10", default-features = false }
referencing = { version = "=0.46.10", default-features = false }
reqwest = { version = "0.12", default-features = false, features = ["blocking", "rustls-tls-webpki-roots-no-provider"] }
rustls-rustcrypto = "0.0.2-alpha"
serde = "1"
serde_json = "=1.0.154"
serde_yaml = "=0.9.34"
tokio = { version = "1", features = ["rt-multi-thread", "macros", "io-std", "sync"] }
tower-lsp = "0.20"
tracing = "0.1"
tracing-subscriber = { version = "0.3", features = ["env-filter"] }
unsafe-libyaml = "0.2"
url = "=2.5.8"

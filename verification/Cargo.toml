[package]
name = "known_chess"
version = "0.1.0"
edition = "2021"
publish = false

[dependencies]
shakmaty = "=0.29.4"
serde = { version = "=1.0.229", features = ["derive"] }
serde_json = "=1.0.154"
toml = "=1.1.8"
thiserror = "=2.0.21"
anyhow = "=1.0.104"
ureq = { version = "=2.12.1", features = ["json"] }
clap = { version = "=4.6.7", features = ["derive"] }
memmap2 = "=0.9.12"
indicatif = "=0.17.11"
tracing = "=0.1.44"
tracing-subscriber = { version = "=0.3.23", features = ["env-filter"] }
axum = "=0.7.9"
tokio = { version = "=1.54.1", features = ["macros", "rt-multi-thread", "net", "signal"] }
tower-http = { version = "=0.6.11", features = ["cors", "trace"] }

[package]
name = "ragamuffin"
version = "0.1.0"
edition = "2021"
publish = false

[dependencies]
anyhow = "=1.0.104"
clap = { version = "=4.6.7", features = ["derive"] }
directories = "=6.0.0"
dotenv = "=0.15.0"
fastembed = "*"
indicatif = "=0.18.6"
rmcp = { version = "=3.8.0", features = ["server", "macros", "transport-io"] }
schemars = "=1.2.3"
serde = { version = "=1.0.229", features = ["derive"] }
serde_json = "=1.0.154"
sha2 = "=0.11.1"
thiserror = "=2.0.21"
tokio = { version = "=1.54.1", features = ["macros", "rt-multi-thread", "io-std", "sync"] }
tracing = "=0.1.44"
tracing-subscriber = { version = "=0.3.23", features = ["env-filter"] }
walkdir = "=2.5.0"

[dev-dependencies]
tempfile = "=3.27.0"

[package]
name = "annp"
version = "0.1.0"
edition = "2021"
publish = false

[dependencies]
candle-core = "=0.11.1"
clap = { version = "=4.6.7", features = ["derive"] }
csv = "=1.4.0"
dtact = "=0.2.8"
# Used by dtact only. Held here to a version that dtact 0.2.8 compiles with.
dtact-macros = "=0.1.3"
env_logger = "=0.11.11"
rand = "=0.9.5"
rusqlite = { version = "=0.41.1", features = ["bundled"] }
sentencepiece = "=0.14.0"
serde = { version = "=1.0.229", features = ["derive"] }
serde_json = "=1.0.154"
toml = "=1.1.8"

[package]
name = "rust_discord_bot"
version = "0.1.0"
edition = "2021"
publish = false

[dependencies]
chrono = "0.4"
chrono-tz = "0.10"
regex = "1"
base64 = "0.22"
serde = { version = "1", features = ["derive"] }
serde_json = "1"
log = "0.4"
tokio = { version = "1", features = ["sync", "time", "macros", "rt-multi-thread"] }
poise = "0.6"
redb = "*"
qdrant-client = "*"
actix-web = "4"
reqwest = { version = "0.12", default-features = false, features = ["json"] }

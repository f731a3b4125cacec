[package]
name = "inhouse"
version = "0.1.0"
edition = "2021"
publish = false

[dependencies]
rand = "0.8"
itertools = "0.12"
serde = { version = "1", features = ["derive"] }
serde_json = "1"
tokio = { version = "1", features = ["full"] }
poise = "0.6"
serenity = "0.12"
glicko2 = "*"
postgrest = "1"
reqwest = "0.11"
axum = "0.7"
dotenv = "0.15"

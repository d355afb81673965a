[package]
name = "md_wiki"
version = "0.1.0"
edition = "2021"
publish = false

[dependencies]
argon2 = "0.5"
rand = "0.8"
serde = { version = "1", features = ["derive"] }
serde_json = "1"
axum = "0.7"
tokio = { version = "1", features = ["rt-multi-thread", "macros", "net"] }
git2 = { version = "0.18", default-features = false }
rusqlite = { version = "0.31", features = ["bundled"] }
jsonwebtoken = "9"
chrono = "0.4"

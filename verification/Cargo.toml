[package]
name = "city_match"
version = "0.1.0"
edition = "2021"
publish = false

[dependencies]
levenshtein = "1.0.5"
axum = "0.6"
tokio = { version = "1", features = ["macros", "rt-multi-thread"] }
tokio-postgres = "0.7"
dotenv = "0.15"
serde_json = "1"

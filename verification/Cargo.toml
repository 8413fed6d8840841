[package]
name = "mq_ingest"
version = "0.1.0"
edition = "2021"
publish = false

[dependencies]
anyhow = "1"
bytes = "1"
chrono = { version = "0.4", default-features = false, features = ["std", "clock"] }
dotenvy = "0.15"
envy = "0.4"
rand = "0.9"
rumqttc = { version = "0.24", default-features = false }
serde = { version = "1", features = ["derive"] }
serde-humantime = "0.1"
serde_json = { version = "1", features = ["raw_value"] }
sqlx = { version = "0.8", default-features = false, features = ["postgres", "runtime-tokio", "chrono", "json"] }
tokio = { version = "1", features = ["rt", "macros", "sync", "time"] }

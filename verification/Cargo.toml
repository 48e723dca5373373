[package]
name = "production_resolver"
version = "0.1.0"
edition = "2021"
publish = false

[dependencies]
anyhow = "1"
dotenv = "0.15"
futures = "0.3"
serde = { version = "1", features = ["derive"] }
serde-xml-rs = "0.6"
sqlx = { version = "0.8", default-features = false, features = ["postgres", "runtime-tokio"] }
tokio = { version = "1", features = ["macros", "rt-multi-thread", "net"] }
tracing = "0.1"
tracing-subscriber = "0.3"

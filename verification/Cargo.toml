[package]
name = "kanban"
version = "0.1.0"
edition = "2021"
publish = false

[dependencies]
actix-files = "=0.6.10"
actix-web = "=4.15.0"
anyhow = "=1.0.104"
chrono = { version = "=0.4.45", features = ["serde"] }
dotenv = "=0.15.0"
fern = "=0.7.1"
futures = "=0.3.34"
log = "=0.4.34"
serde = { version = "=1.0.229", features = ["derive"] }
sqlx = { version = "=0.8.6", features = ["postgres", "runtime-tokio", "chrono"] }

[package]
name = "backend"
version = "0.1.0"
edition = "2021"
publish = false

[dependencies]
dashmap = "6"
lazy_static = "1"
log = "0.4"
tokio = { version = "1", default-features = false, features = ["rt", "time"] }
actix-web = { version = "4", default-features = false }
sqlx = { version = "0.8", default-features = false, features = ["derive"] }

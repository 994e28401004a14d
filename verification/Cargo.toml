[package]
name = "control"
version = "0.1.0"
edition = "2021"
publish = false

[dependencies]
async-trait = "*"
chrono = { version = "*", features = ["serde"] }
regex = "*"
serde = { version = "*", features = ["derive"] }
serde_json = "*"
sqlx = { version = "*", default-features = false, features = ["runtime-tokio", "postgres", "chrono", "uuid", "json", "migrate"] }
thiserror = "*"
tokio = { version = "*", features = ["rt", "sync", "time"] }
uuid = { version = "*", features = ["v4", "serde"] }

[package]
name = "listem"
version = "0.1.0"
edition = "2021"
publish = false

[dependencies]
rand = "=0.8.8"
chrono = { version = "=0.4.45", features = ["serde"] }
axum = { version = "=0.8.9", features = ["macros"] }
axum-core = "=0.5.6"
http = "=1.5.0"
askama = "=0.14.0"
askama-derive-axum = "=0.1.4"
diesel = { version = "=2.3.14", features = ["sqlite", "r2d2", "chrono", "returning_clauses_for_sqlite_3_35"] }
dotenvy = "=0.15.7"
tokio = { version = "=1.54.1", features = ["full"] }
tower-http = { version = "=0.6.11", features = ["fs"] }
tracing = "=0.1.44"
tracing-subscriber = { version = "=0.3.23", features = ["env-filter"] }
serde = { version = "=1.0.229", features = ["derive"] }

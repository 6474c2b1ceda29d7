[package]
name = "polyalgebra"
version = "0.1.0"
edition = "2021"
publish = false

[dependencies]
gcd = "=2.3.0"
rand = "=0.9.5"
regex = "=1.13.1"
serde_json = "=1.0.154"
serde = { version = "1", features = ["derive"] }
clap = { version = "4", features = ["derive"] }
log = "0.4"
env_logger = "0.11"
thiserror = "2"
chrono = { version = "0.4", features = ["serde"] }
actix-web = "4"
actix-cors = "0.7"
sea-orm = { version = "1", default-features = false, features = ["macros", "with-json", "with-chrono", "sqlx-sqlite", "runtime-tokio-rustls"] }
base64 = "0.22"
indexmap = { version = "2", features = ["serde"] }
float_next_after = "1"

[package]
name = "paste_store"
version = "0.1.0"
edition = "2021"
publish = false

[dependencies]
actix-web = { version = "4", default-features = false, features = ["macros", "compress-gzip"] }
argh = "0.1"
askama = "0.12"
chrono = "0.4"
gpw = "0.1"
htmlescape = "0.3"
log = "0.4"
once_cell = "1"
pretty_env_logger = "0.5"
rand = "0.8"
serde = { version = "1", features = ["derive"] }
sqlx = { version = "0.7", default-features = false, features = ["runtime-tokio", "sqlite", "chrono", "macros"] }
syntect = { version = "5", default-features = false, features = ["default-fancy"] }

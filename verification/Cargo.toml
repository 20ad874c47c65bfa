[package]
name = "make_short_url"
version = "0.1.0"
edition = "2021"
publish = false

[dependencies]
reqwest = { version = "*", default-features = false }
actix-web = { version = "4", default-features = false, features = ["macros"] }
actix-files = "*"
bb8-redis = "*"
futures = "*"
log = "0.4"
env_logger = "*"
serde = { version = "1", features = ["derive"] }

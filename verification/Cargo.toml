[package]
name = "mcbe_text_impact"
version = "0.1.0"
edition = "2021"
publish = false

[dependencies]
image = { version = "0.24", default-features = false, features = ["png"] }
serde = { version = "1", features = ["derive"] }
serde_json = "1"
actix-web = { version = "4", default-features = false, features = ["macros", "compress-gzip"] }
actix-files = "0.6"
env_logger = "0.10"
log = "0.4"

[package]
name = "bare_server_rs"
version = "0.1.0"
edition = "2021"
publish = false

[dependencies]
actix = "=0.13.5"
actix-files = "=0.6.10"
actix-http = { version = "=3.20.0", features = ["ws"] }
actix-web = { version = "=4.18.1", default-features = false, features = ["macros", "ws"] }
actix-web-actors = "=4.3.1"
awc = { version = "=3.11.0", default-features = false }
http = "=0.2.12"
rand = "=0.8.8"
serde = { version = "=1.0.229", features = ["derive"] }
serde_json = "=1.0.154"
tokio = { version = "=1.54.1", features = ["sync"] }

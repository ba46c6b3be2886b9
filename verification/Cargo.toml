[package]
name = "jotts"
version = "0.1.0"
edition = "2021"
publish = false

[dependencies]
subtle = "2"
rand = "0.8"
pulldown-cmark = "*"
axum = "0.8"
tokio = { version = "1", features = ["macros", "rt-multi-thread", "net"] }
serde = { version = "1", features = ["derive"] }
tracing = "0.1"
dotenvy = "0.15"
rust-embed = "8"
askama = "*"
askama_web = { version = "*", features = ["axum-0.8"] }

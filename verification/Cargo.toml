[package]
name = "morph_app"
version = "0.1.0"
edition = "2021"
publish = false

[dependencies]
anyhow = "1"
rand = "0.9"
unicode-normalization = "0.1"
serde = { version = "1", features = ["derive"] }
serde_json = "1"
rusqlite = { version = "*", features = ["bundled"] }
dioxus = { version = "0.6", default-features = false, features = ["macro", "html", "signals", "hooks", "document"] }

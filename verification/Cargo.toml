[package]
name = "portfolio_server"
version = "0.1.0"
edition = "2021"
publish = false

[dependencies]
pulldown-cmark = "*"
serde = { version = "*", features = ["derive"] }
serde_json = "*"
ureq = { version = "2", default-features = false, features = ["json"] }

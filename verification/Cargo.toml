[package]
name = "mdbook_ifdef"
version = "0.1.0"
edition = "2021"
publish = false

[dependencies]
clap = { version = "4", features = ["derive"] }
mdbook = { version = "0.4", default-features = false }
serde_json = "1"

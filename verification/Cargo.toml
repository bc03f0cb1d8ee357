[package]
name = "auto_rename_screenshots"
version = "0.1.0"
edition = "2021"
publish = false

[dependencies]
rand = "0.8"
serde = { version = "1", features = ["derive"] }
serde_json = "1"
lazy_static = "1"
structopt = "0.3"
tokio = { version = "1", features = ["full"] }
tokio-util = { version = "0.7", features = ["compat"] }
futures-lite = "*"
async_zip = { version = "*", features = ["tokio"] }
sevenz-rust = "*"

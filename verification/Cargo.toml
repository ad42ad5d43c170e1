[package]
name = "xcode_color_assets"
version = "0.1.0"
edition = "2021"
publish = false

[dependencies]
anyhow = "*"
clap = { version = "*", features = ["derive"] }
colored = "*"
serde_json = "*"
thiserror = "*"

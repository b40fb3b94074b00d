[package]
name = "st"
version = "0.1.0"
edition = "2021"
publish = false

[dependencies]
anyhow = "1"
clap = { version = "4", features = ["derive"] }
git2 = { version = "0.19", default-features = false }
inquire = { version = "0.7", features = ["editor"] }
nu-ansi-term = "0.50"
octocrab = "0.41"
serde = { version = "1", features = ["derive"] }
thiserror = "1"
tokio = { version = "1", features = ["full"] }
toml = "0.8"

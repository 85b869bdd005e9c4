[package]
name = "fresh-gui-app"
version = "0.1.0"
edition = "2021"
publish = false

[dependencies]
regex = "1"
anyhow = "1"
clap = { version = "4", features = ["derive", "env"] }
serde = { version = "1", features = ["derive"] }
serde_json = "1"
tokio = { version = "1", features = ["rt-multi-thread", "io-std", "io-util", "macros", "time"] }
tracing = "0.1"
tracing-subscriber = { version = "0.3", features = ["env-filter"] }
alacritty_terminal = "*"
image = { version = "*", default-features = false, features = ["png"] }
jsonc-parser = { version = "*", features = ["serde"] }
async-channel = "2"

[package]
name = "rtodo"
version = "0.1.0"
edition = "2021"
publish = false

[dependencies]
chrono = "*"
ratatui = "*"
tui-input = "*"
color-eyre = "*"
directories = "*"
lexopt = "*"
serde = { version = "*", features = ["derive"] }
toml = "*"
